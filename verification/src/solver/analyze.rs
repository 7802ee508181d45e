//! Conflict analysis: the clause learned at the first unique implication
//! point, and the level to jump back to.

use vstd::prelude::*;
use vstd::set_lib::{lemma_int_range, lemma_len_subset, set_int_range};
use crate::lit::{clause_falsified, clause_holds, distinct, lit_holds, lits_in_range, Lit, VarValue};
use crate::solver::Solver;

verus! {

/// Where the literals to resolve begin in the clause at hand: the first
/// literal of a reason clause is the literal it forced and is passed over.
pub(crate) open spec fn start_of(p: Option<Lit>, i: int) -> int {
    if p is Some && i == 0 {
        1
    } else {
        i
    }
}

impl Solver {
    /// Only the scratch space of conflict analysis differs from `o`.
    pub open(crate) spec fn scratch_only(&self, o: &Solver) -> bool {
        &&& self.clauses == o.clauses
        &&& self.watches == o.watches
        &&& self.assignments == o.assignments
        &&& self.level == o.level
        &&& self.reason == o.reason
        &&& self.trail == o.trail
        &&& self.trail_lim == o.trail_lim
        &&& self.q_head == o.q_head
        &&& self.num_vars == o.num_vars
        &&& self.ok == o.ok
        &&& self.pos == o.pos
    }

    /// The scratch space is sound: the marks cover the variables, and every
    /// marked variable is listed for clearing.
    pub open(crate) spec fn scratch_ok(&self) -> bool {
        &&& self.analyze_seen@.len() == self.n()
        &&& forall|i: int| 0 <= i < self.analyze_toclear@.len() ==> (#[trigger] self.analyze_toclear@[i]) < self.n()
        &&& forall|v: int| 0 <= v < self.n() && #[trigger] self.analyze_seen@[v] ==> self.analyze_toclear@.contains(v as usize)
    }

    /// A state that differs only in sound scratch space keeps the invariant,
    /// the models and the two-watched-literal invariant.
    pub(crate) proof fn lemma_scratch_wf(&self, o: &Solver)
        requires
            o.wf(),
            self.scratch_only(o),
            self.scratch_ok(),
        ensures
            self.wf(),
            self.extends(o),
            forall|q: int| o.guarded_at(q) ==> self.guarded_at(q),
    {
        assert forall|d: int| 0 <= d < self.clauses@.len() implies #[trigger] self.clause_ok(d) by {
            assert(o.clause_ok(d));
        }
        assert forall|i: int| 0 <= i < self.trail@.len() implies #[trigger] self.entry_at(i) by {
            assert(o.entry_at(i));
        }
        assert forall|v: int| 0 <= v < self.n() implies #[trigger] self.var_at(v) by {
            assert(o.var_at(v));
            if self.reason@[v] is Some {
                let d = self.reason@[v]->0 as int;
                assert(o.reason_ok(v, d));
                assert forall|k: int| 1 <= k < self.lits(d).len() implies self.val(#[trigger] self.lits(d)[k])
                    == VarValue::False && self.at(self.lits(d)[k]) < self.pos@[v] by {
                    assert(o.val(o.lits(d)[k]) == VarValue::False);
                }
            }
        }
        assert forall|k: int| 0 <= k < self.trail_lim@.len() implies (#[trigger] self.trail_lim@[k]) < self.trail@.len() by {
            assert(o.trail_lim@[k] < o.trail@.len());
        }
        assert(self.inv_lims());
        assert(self.inv_watches());
        o.lemma_extends_refl();
        assert forall|c: int| 0 <= c < o.clauses@.len() implies #[trigger] self.clause_kept(o, c) by {
            assert(o.clause_kept(o, c));
        }
        assert forall|v: int| 0 <= v < o.n() && o.assignments@[v] != VarValue::Unassigned implies #[trigger] self.var_kept(
            o,
            v,
        ) by {}
        self.lemma_models_same(o);
        assert forall|c: int| 0 <= c < self.clauses@.len() implies #[trigger] self.clause_watched(c) by {
            assert(o.clause_watched(c));
        }
        assert forall|q: int| o.guarded_at(q) implies self.guarded_at(q) by {
            assert forall|c: int| 0 <= c < self.clauses@.len() implies #[trigger] self.clause_guarded(c, q) by {
                assert(o.clause_guarded(c, q));
            }
        }
    }

    /// The literal of the assigned variable `v` that is False.
    pub open(crate) spec fn false_lit(&self, v: int) -> Lit {
        self.trail@[self.pos@[v]].spec_not()
    }

    /// A marked variable is assigned above the root, and if below the
    /// current level, its False literal is in the buffer.
    pub open(crate) spec fn seen_ok(&self, v: int) -> bool {
        &&& self.assignments@[v] != VarValue::Unassigned
        &&& self.level@[v] > 0
        &&& self.level@[v] < self.dl() ==> self.analyze_clause@.contains(self.false_lit(v))
    }

    /// Entry `k` of the buffer is a False literal of a marked variable that
    /// was assigned above the root and below the current level.
    pub open(crate) spec fn buf_ok(&self, k: int) -> bool {
        let l = self.analyze_clause@[k];
        &&& l.spec_var() < self.n()
        &&& self.val(l) == VarValue::False
        &&& 0 < self.lvl(l) < self.dl()
        &&& self.analyze_seen@[l.spec_var()]
    }

    /// `pend` holds `v` iff `v` is marked and of the current level, and then
    /// `v` stands on the trail below `index`.
    pub open(crate) spec fn pend_ok(&self, pend: Set<int>, index: int, v: int) -> bool {
        &&& pend.contains(v) <==> (0 <= v < self.n() && self.analyze_seen@[v] && self.level@[v] == self.dl())
        &&& pend.contains(v) ==> self.pos@[v] < index
    }

    /// The marks, the buffer and the count of conflict analysis are sound.
    pub open(crate) spec fn marks_ok(&self, o: &Solver, index: int, counter: int, pend: Set<int>) -> bool {
        &&& self.scratch_only(o)
        &&& self.scratch_ok()
        &&& forall|v: int| 0 <= v < self.n() && self.analyze_seen@[v] ==> #[trigger] self.seen_ok(v)
        &&& forall|k: int| 0 <= k < self.analyze_clause@.len() ==> #[trigger] self.buf_ok(k)
        &&& forall|k1: int, k2: int|
            0 <= k1 < k2 < self.analyze_clause@.len() ==> (#[trigger] self.analyze_clause@[k1]).spec_var() != (
            #[trigger] self.analyze_clause@[k2]).spec_var()
        &&& pend.finite()
        &&& counter == pend.len()
        &&& forall|v: int| #[trigger] self.pend_ok(pend, index, v)
        &&& 0 <= index <= self.trail@.len()
    }

    /// The literal that the trail holds for variable `v`.
    pub open(crate) spec fn trail_lit(&self, v: int) -> Lit {
        self.trail@[self.pos@[v]]
    }

    /// The clause under construction holds in `m`: a literal of the buffer
    /// holds, or the trail literal of a pending variable fails, or a literal
    /// of `cur` from position `from` on holds.
    pub open(crate) spec fn resolvent_holds(&self, m: Seq<bool>, pend: Set<int>, cur: Seq<Lit>, from: int) -> bool {
        ||| clause_holds(m, self.analyze_clause@)
        ||| exists|v: int| #[trigger] pend.contains(v) && !lit_holds(m, self.trail_lit(v))
        ||| exists|k: int| from <= k < cur.len() && #[trigger] lit_holds(m, cur[k])
    }

    /// Clause `c` is what is resolved next: the conflict clause, all False,
    /// with a literal of the current level, if `p` is `None`; else the reason
    /// of `p`, the trail literal at `index`.
    pub open(crate) spec fn cur_ok(&self, c: int, p: Option<Lit>, index: int) -> bool {
        &&& 0 <= c < self.clauses@.len()
        &&& match p {
            None => {
                &&& clause_falsified(self.assignments@, self.lits(c))
                &&& index == self.trail@.len()
                &&& exists|k: int| 0 <= k < self.lits(c).len() && self.lvl(#[trigger] self.lits(c)[k]) == self.dl()
            },
            Some(pl) => {
                &&& pl.spec_var() < self.n()
                &&& self.reason@[pl.spec_var()] is Some
                &&& self.reason@[pl.spec_var()]->0 as int == c
                &&& self.pos@[pl.spec_var()] == index
                &&& 0 <= index < self.trail@.len()
                &&& self.trail@[index] == pl
            },
        }
    }

    /// What holds while the literals of clause `c` before position `i` have
    /// been looked at.
    pub open(crate) spec fn resolving(
        &self,
        o: &Solver,
        c: int,
        p: Option<Lit>,
        index: int,
        counter: int,
        pend: Set<int>,
        i: int,
    ) -> bool {
        let from = start_of(p, i);
        &&& self.marks_ok(o, index, counter, pend)
        &&& o.cur_ok(c, p, index)
        &&& 0 <= i <= o.lits(c).len()
        &&& forall|m: Seq<bool>| o.models(m) ==> #[trigger] self.resolvent_holds(m, pend, o.lits(c), from)
        &&& p is Some ==> counter > 0 && !self.analyze_seen@[(p->0).spec_var()]
        &&& forall|k: int|
            0 <= k < i && o.lvl(#[trigger] o.lits(c)[k]) > 0 && !(p is Some && k == 0) ==> self.analyze_seen@[o.lits(
                c,
            )[k].spec_var()]
    }

    /// Literal `i` of the clause at hand, other than `p`, is False and stands
    /// on the trail below `index`.
    pub(crate) proof fn lemma_cur_lit(&self, c: int, p: Option<Lit>, index: int, i: int)
        requires
            self.wf(),
            self.cur_ok(c, p, index),
            0 <= i < self.lits(c).len(),
            !(p is Some && i == 0),
        ensures
            self.lits(c)[i].spec_var() < self.n(),
            self.val(self.lits(c)[i]) == VarValue::False,
            0 <= self.at(self.lits(c)[i]) < index,
            self.trail@[self.at(self.lits(c)[i])] == self.lits(c)[i].spec_not(),
            self.false_lit(self.lits(c)[i].spec_var()) == self.lits(c)[i],
            p is Some ==> self.lits(c)[0] == p->0,
    {
        let l = self.lits(c)[i];
        assert(self.clause_ok(c));
        match p {
            None => {
                assert(crate::lit::lit_value(self.assignments@, l) == VarValue::False);
            },
            Some(pl) => {
                assert(self.var_at(pl.spec_var()));
                assert(self.reason_ok(pl.spec_var(), c));
                assert(self.val(l) == VarValue::False);
            },
        }
        self.lemma_false_on_trail(l);
        crate::lit::lemma_not_involutive(l);
        if p is Some {
            assert(self.var_at((p->0).spec_var()));
            assert(self.reason_ok((p->0).spec_var(), c));
        }
    }

    /// The step of looking at literal `i` of the clause at hand, when nothing
    /// is marked: the literal is `p`, or of the root level, or marked already.
    pub(crate) proof fn lemma_resolve_skip(
        &self,
        o: &Solver,
        c: int,
        p: Option<Lit>,
        index: int,
        counter: int,
        pend: Set<int>,
        i: int,
    )
        requires
            o.wf(),
            o.dl() > 0,
            self.resolving(o, c, p, index, counter, pend, i),
            i < o.lits(c).len(),
            0 <= i,
            o.lits(c)[i].spec_var() < o.n(),
            (p is Some && i == 0) || self.analyze_seen@[o.lits(c)[i].spec_var()] || o.lvl(o.lits(c)[i]) == 0,
        ensures
            self.resolving(o, c, p, index, counter, pend, i + 1),
    {
        let l = o.lits(c)[i];
        let cur = o.lits(c);
        let from = start_of(p, i);
        if !(p is Some && i == 0) {
            o.lemma_cur_lit(c, p, index, i);
            let v = l.spec_var();
            assert forall|m: Seq<bool>| o.models(m) implies #[trigger] self.resolvent_holds(m, pend, cur, i + 1) by {
                assert(self.resolvent_holds(m, pend, cur, from));
                if !clause_holds(m, self.analyze_clause@) && !(exists|v: int| #[trigger]
                    pend.contains(v) && !lit_holds(m, self.trail_lit(v))) {
                    let k = choose|k: int| from <= k < cur.len() && #[trigger] lit_holds(m, cur[k]);
                    if k == i {
                        if o.lvl(l) == 0 {
                            assert(o.entry_at(o.at(l)));
                            assert(o.at(l) < o.root_end());
                            assert(lit_holds(m, o.trail@[o.at(l)]));
                            assert(false);
                        } else {
                            assert(self.seen_ok(v));
                            assert(self.pend_ok(pend, index, v));
                            assert(o.entry_at(o.at(l)));
                            if o.level@[v] == o.dl() {
                                assert(pend.contains(v) && !lit_holds(m, self.trail_lit(v)));
                                assert(false);
                            } else {
                                let b = choose|b: int|
                                    0 <= b < self.analyze_clause@.len() && self.analyze_clause@[b] == self.false_lit(v);
                                assert(lit_holds(m, self.analyze_clause@[b]));
                                assert(false);
                            }
                        }
                    } else {
                        assert(i + 1 <= k < cur.len() && lit_holds(m, cur[k]));
                    }
                }
            }
        } else {
            assert forall|m: Seq<bool>| o.models(m) implies #[trigger] self.resolvent_holds(m, pend, cur, i + 1) by {
                assert(self.resolvent_holds(m, pend, cur, from));
            }
        }
    }

    /// The step of marking the variable of literal `i` of the clause at hand.
    pub(crate) proof fn lemma_resolve_mark(
        &self,
        b: &Solver,
        o: &Solver,
        c: int,
        p: Option<Lit>,
        index: int,
        counter: int,
        pend: Set<int>,
        i: int,
    )
        requires
            o.wf(),
            o.dl() > 0,
            b.resolving(o, c, p, index, counter, pend, i),
            i < o.lits(c).len(),
            !(p is Some && i == 0),
            0 <= i,
            o.lits(c)[i].spec_var() < o.n(),
            !b.analyze_seen@[o.lits(c)[i].spec_var()],
            o.lvl(o.lits(c)[i]) > 0,
            self.scratch_only(b),
            self.analyze_seen@ == b.analyze_seen@.update(o.lits(c)[i].spec_var(), true),
            self.analyze_toclear@ == b.analyze_toclear@.push(o.lits(c)[i].spec_var() as usize),
            self.analyze_clause@ == (if o.lvl(o.lits(c)[i]) == o.dl() {
                b.analyze_clause@
            } else {
                b.analyze_clause@.push(o.lits(c)[i])
            }),
        ensures
            o.lvl(o.lits(c)[i]) == o.dl() ==> self.resolving(
                o,
                c,
                p,
                index,
                counter + 1,
                pend.insert(o.lits(c)[i].spec_var()),
                i + 1,
            ) && counter < o.n(),
            o.lvl(o.lits(c)[i]) != o.dl() ==> self.resolving(o, c, p, index, counter, pend, i + 1),
    {
        let l = o.lits(c)[i];
        let v = l.spec_var();
        let cur = o.lits(c);
        let cur_level = o.lvl(l) == o.dl();
        let pend2 = if cur_level { pend.insert(v) } else { pend };
        let counter2 = if cur_level { counter + 1 } else { counter };
        o.lemma_cur_lit(c, p, index, i);
        assert(o.entry_at(o.at(l)));
        assert(b.pend_ok(pend, index, v));
        // scratch
        assert forall|k: int| 0 <= k < self.analyze_toclear@.len() implies (#[trigger] self.analyze_toclear@[k])
            < self.n() by {
            if k < b.analyze_toclear@.len() {
                assert(self.analyze_toclear@[k] == b.analyze_toclear@[k]);
            }
        }
        assert forall|u: int| 0 <= u < self.n() && #[trigger] self.analyze_seen@[u] implies self.analyze_toclear@.contains(
            u as usize,
        ) by {
            if u == v {
                assert(self.analyze_toclear@[b.analyze_toclear@.len() as int] == v as usize);
            } else {
                assert(b.analyze_seen@[u]);
                let k = choose|k: int| 0 <= k < b.analyze_toclear@.len() && b.analyze_toclear@[k] == u as usize;
                assert(self.analyze_toclear@[k] == u as usize);
            }
        }
        assert forall|u: int| 0 <= u < self.n() && self.analyze_seen@[u] implies #[trigger] self.seen_ok(u) by {
            if u == v {
                if !cur_level {
                    assert(self.analyze_clause@[b.analyze_clause@.len() as int] == l);
                }
            } else {
                assert(b.seen_ok(u));
                if b.level@[u] < b.dl() {
                    let k = choose|k: int| 0 <= k < b.analyze_clause@.len() && b.analyze_clause@[k] == b.false_lit(u);
                    assert(self.analyze_clause@[k] == self.false_lit(u));
                }
            }
        }
        assert forall|k: int| 0 <= k < self.analyze_clause@.len() implies #[trigger] self.buf_ok(k) by {
            if k < b.analyze_clause@.len() {
                assert(b.buf_ok(k));
                assert(self.analyze_clause@[k] == b.analyze_clause@[k]);
            } else {
                assert(self.analyze_clause@[k] == l);
                assert(o.lvl(l) <= o.dl());
            }
        }
        assert forall|k1: int, k2: int| 0 <= k1 < k2 < self.analyze_clause@.len() implies (
        #[trigger] self.analyze_clause@[k1]).spec_var() != (#[trigger] self.analyze_clause@[k2]).spec_var() by {
            assert(b.buf_ok(k1));
            assert(self.analyze_clause@[k1] == b.analyze_clause@[k1]);
            if k2 < b.analyze_clause@.len() {
                assert(self.analyze_clause@[k2] == b.analyze_clause@[k2]);
            }
        }
        assert forall|u: int| #[trigger] self.pend_ok(pend2, index, u) by {
            assert(b.pend_ok(pend, index, u));
        }
        if cur_level {
            lemma_int_range(0, o.n());
            assert(pend.subset_of(set_int_range(0, o.n()))) by {
                assert forall|u: int| pend.contains(u) implies set_int_range(0, o.n()).contains(u) by {
                    assert(b.pend_ok(pend, index, u));
                }
            }
            assert(pend2.subset_of(set_int_range(0, o.n()))) by {
                assert forall|u: int| pend2.contains(u) implies set_int_range(0, o.n()).contains(u) by {
                    assert(self.pend_ok(pend2, index, u));
                }
            }
            lemma_len_subset(pend2, set_int_range(0, o.n()));
        }
        assert(self.marks_ok(o, index, counter2, pend2));
        assert forall|m: Seq<bool>| o.models(m) implies #[trigger] self.resolvent_holds(m, pend2, cur, i + 1) by {
            assert(b.resolvent_holds(m, pend, cur, start_of(p, i)));
            if clause_holds(m, b.analyze_clause@) {
                let k = choose|k: int| 0 <= k < b.analyze_clause@.len() && #[trigger] lit_holds(m, b.analyze_clause@[k]);
                assert(lit_holds(m, self.analyze_clause@[k]));
            } else if exists|u: int| #[trigger] pend.contains(u) && !lit_holds(m, b.trail_lit(u)) {
                let u = choose|u: int| #[trigger] pend.contains(u) && !lit_holds(m, b.trail_lit(u));
                assert(pend2.contains(u) && !lit_holds(m, self.trail_lit(u)));
            } else {
                let k = choose|k: int| i <= k < cur.len() && #[trigger] lit_holds(m, cur[k]);
                if k == i {
                    if cur_level {
                        assert(pend2.contains(v) && !lit_holds(m, self.trail_lit(v)));
                    } else {
                        assert(lit_holds(m, self.analyze_clause@[b.analyze_clause@.len() as int]));
                    }
                } else {
                    assert(i + 1 <= k < cur.len() && lit_holds(m, cur[k]));
                }
            }
        }
        assert forall|k: int|
            0 <= k < i + 1 && o.lvl(#[trigger] o.lits(c)[k]) > 0 && !(p is Some && k == 0) implies self.analyze_seen@[o.lits(
            c,
        )[k].spec_var()] by {
            if k < i {
                assert(b.analyze_seen@[o.lits(c)[k].spec_var()]);
                o.lemma_cur_lit(c, p, index, k);
            }
        }
    }
}

impl Solver {
    /// The clause under construction holds in `m` once `pl` was picked to
    /// resolve on: a literal of the buffer holds, or the trail literal of a
    /// pending variable fails, or `pl` fails.
    pub open(crate) spec fn picked_holds(&self, m: Seq<bool>, pend: Set<int>, pl: Lit) -> bool {
        ||| clause_holds(m, self.analyze_clause@)
        ||| exists|v: int| #[trigger] pend.contains(v) && !lit_holds(m, self.trail_lit(v))
        ||| !lit_holds(m, pl)
    }

    /// What holds once `pl`, the trail literal at `index`, was picked.
    pub open(crate) spec fn picked(&self, o: &Solver, pl: Lit, index: int, counter: int, pend: Set<int>) -> bool {
        &&& self.marks_ok(o, index, counter, pend)
        &&& 0 <= index < o.trail@.len()
        &&& pl == o.trail@[index]
        &&& pl.spec_var() < o.n()
        &&& o.lvl(pl) == o.dl()
        &&& o.val(pl) == VarValue::True
        &&& !self.analyze_seen@[pl.spec_var()]
        &&& forall|m: Seq<bool>| o.models(m) ==> #[trigger] self.picked_holds(m, pend, pl)
    }

    /// Analysis begins with nothing marked and the conflict clause at hand.
    pub(crate) proof fn lemma_analysis_start(&self, o: &Solver, c: int)
        requires
            o.wf(),
            o.cur_ok(c, None, o.trail@.len() as int),
            self.scratch_only(o),
            self.analyze_seen@.len() == o.n(),
            forall|v: int| 0 <= v < o.n() ==> !self.analyze_seen@[v],
            self.analyze_toclear@.len() == 0,
            self.analyze_clause@.len() == 0,
        ensures
            self.resolving(o, c, None, o.trail@.len() as int, 0, Set::empty(), 0),
    {
        let pend = Set::<int>::empty();
        assert forall|v: int| #[trigger] self.pend_ok(pend, o.trail@.len() as int, v) by {}
        assert forall|m: Seq<bool>| o.models(m) implies #[trigger] self.resolvent_holds(
            m,
            pend,
            o.lits(c),
            start_of(None, 0),
        ) by {
            assert(clause_holds(m, o.lits(c)));
            let k = choose|k: int| 0 <= k < o.lits(c).len() && #[trigger] lit_holds(m, o.lits(c)[k]);
            assert(0 <= k < o.lits(c).len() && lit_holds(m, o.lits(c)[k]));
        }
    }

    /// While a variable is pending, the walk down the trail has not reached
    /// the bottom, and it may pass an entry that is not marked.
    pub(crate) proof fn lemma_walk(&self, o: &Solver, index: int, counter: int, pend: Set<int>)
        requires
            o.wf(),
            self.marks_ok(o, index, counter, pend),
            counter > 0,
        ensures
            index >= 1,
            !self.analyze_seen@[o.trail@[index - 1].spec_var()] ==> self.marks_ok(o, index - 1, counter, pend),
            o.trail@[index - 1].spec_var() < o.n(),
    {
        let v = pend.choose();
        assert(pend.contains(v));
        assert(self.pend_ok(pend, index, v));
        assert(self.seen_ok(v));
        assert(o.var_at(v));
        assert(o.entry_at(index - 1));
        if !self.analyze_seen@[o.trail@[index - 1].spec_var()] {
            assert forall|u: int| #[trigger] self.pend_ok(pend, index - 1, u) by {
                assert(self.pend_ok(pend, index, u));
                if pend.contains(u) {
                    assert(self.seen_ok(u));
                    assert(o.var_at(u));
                }
            }
        }
    }

    /// Picking the marked trail entry below `index` to resolve on.
    pub(crate) proof fn lemma_pick(
        &self,
        b: &Solver,
        o: &Solver,
        c: int,
        p: Option<Lit>,
        index: int,
        counter: int,
        pend: Set<int>,
    )
        requires
            o.wf(),
            o.dl() > 0,
            b.marks_ok(o, index, counter, pend),
            0 <= c < o.clauses@.len(),
            forall|m: Seq<bool>|
                o.models(m) ==> #[trigger] b.resolvent_holds(m, pend, o.lits(c), o.lits(c).len() as int),
            counter > 0,
            index >= 1,
            o.trail@[index - 1].spec_var() < o.n(),
            b.analyze_seen@[o.trail@[index - 1].spec_var()],
            self.scratch_only(b),
            self.analyze_seen@ == b.analyze_seen@.update(o.trail@[index - 1].spec_var(), false),
            self.analyze_toclear@ == b.analyze_toclear@,
            self.analyze_clause@ == b.analyze_clause@,
        ensures
            self.picked(o, o.trail@[index - 1], index - 1, counter - 1, pend.remove(o.trail@[index - 1].spec_var())),
            counter - 1 > 0 ==> {
                let pl = o.trail@[index - 1];
                &&& o.reason@[pl.spec_var()] is Some
                &&& self.resolving(
                    o,
                    o.reason@[pl.spec_var()]->0 as int,
                    Some(pl),
                    index - 1,
                    counter - 1,
                    pend.remove(pl.spec_var()),
                    0,
                )
            },
    {
        let pl = o.trail@[index - 1];
        let var = pl.spec_var();
        let pend2 = pend.remove(var);
        assert(o.entry_at(index - 1));
        assert(b.seen_ok(var));
        // the entry is of the current level: a pending variable stands at or below it
        let w = pend.choose();
        assert(pend.contains(w));
        assert(b.pend_ok(pend, index, w));
        assert(b.seen_ok(w));
        assert(o.var_at(w));
        o.lemma_levels_monotone(o.pos@[w], index - 1);
        assert(o.lvl(pl) == o.dl());
        assert(b.pend_ok(pend, index, var));
        assert(pend.contains(var));
        assert forall|u: int| 0 <= u < self.n() && #[trigger] self.analyze_seen@[u] implies self.analyze_toclear@.contains(
            u as usize,
        ) by {
            assert(b.analyze_seen@[u]);
        }
        assert forall|u: int| 0 <= u < self.n() && self.analyze_seen@[u] implies #[trigger] self.seen_ok(u) by {
            assert(b.seen_ok(u));
        }
        assert forall|k: int| 0 <= k < self.analyze_clause@.len() implies #[trigger] self.buf_ok(k) by {
            assert(b.buf_ok(k));
        }
        assert forall|u: int| #[trigger] self.pend_ok(pend2, index - 1, u) by {
            assert(b.pend_ok(pend, index, u));
            if pend2.contains(u) {
                assert(b.seen_ok(u));
                assert(o.var_at(u));
            }
        }
        assert(self.marks_ok(o, index - 1, counter - 1, pend2));
        assert forall|m: Seq<bool>| o.models(m) implies #[trigger] self.picked_holds(m, pend2, pl) by {
            assert(b.resolvent_holds(m, pend, o.lits(c), o.lits(c).len() as int));
            if !clause_holds(m, b.analyze_clause@) {
                let u = choose|u: int| #[trigger] pend.contains(u) && !lit_holds(m, b.trail_lit(u));
                if u != var {
                    assert(pend2.contains(u) && !lit_holds(m, self.trail_lit(u)));
                } else {
                    assert(o.var_at(var));
                }
            }
        }
        if counter - 1 > 0 {
            let u = pend2.choose();
            assert(pend2.contains(u));
            assert(self.pend_ok(pend2, index - 1, u));
            assert(self.seen_ok(u));
            assert(o.var_at(u));
            assert(o.entry_at(o.pos@[u]));
            assert(o.var_at(var));
            assert(o.reason@[var] is Some);
            let c2 = o.reason@[var]->0 as int;
            assert(o.reason_ok(var, c2));
            assert(o.cur_ok(c2, Some(pl), index - 1));
            assert forall|m: Seq<bool>| o.models(m) implies #[trigger] self.resolvent_holds(
                m,
                pend2,
                o.lits(c2),
                start_of(Some(pl), 0),
            ) by {
                assert(self.picked_holds(m, pend2, pl));
                if !clause_holds(m, self.analyze_clause@) && !(exists|v: int| #[trigger]
                    pend2.contains(v) && !lit_holds(m, self.trail_lit(v))) {
                    assert(clause_holds(m, o.lits(c2)));
                    let k = choose|k: int| 0 <= k < o.lits(c2).len() && #[trigger] lit_holds(m, o.lits(c2)[k]);
                    assert(1 <= k < o.lits(c2).len() && lit_holds(m, o.lits(c2)[k]));
                }
            }
        }
    }

    /// `ls` is an asserting clause for a jump back to level `bl`: its first
    /// literal is False and of the current level; every other literal is
    /// False and of a level above the root and at most `bl`, which is below
    /// the current level and is reached by some literal unless there is none.
    pub open(crate) spec fn asserting(&self, ls: Seq<Lit>, bl: int) -> bool {
        &&& ls.len() >= 1
        &&& lits_in_range(ls, self.n() as nat)
        &&& distinct(ls)
        &&& self.val(ls[0]) == VarValue::False
        &&& self.lvl(ls[0]) == self.dl()
        &&& forall|k: int| 1 <= k < ls.len() ==> self.val(#[trigger] ls[k]) == VarValue::False && 0 < self.lvl(ls[k]) <= bl
        &&& 0 <= bl < self.dl()
        &&& ls.len() == 1 ==> bl == 0
        &&& ls.len() > 1 ==> exists|k: int| 1 <= k < ls.len() && self.lvl(#[trigger] ls[k]) == bl
    }

    /// The negation of the picked literal followed by the buffer is implied
    /// by the formula and has the shape of an asserting clause.
    pub(crate) proof fn lemma_learned(&self, b: &Solver, o: &Solver, pl: Lit, index: int, pend: Set<int>)
        requires
            o.wf(),
            o.dl() > 0,
            b.picked(o, pl, index, 0, pend),
            self.scratch_only(b),
            self.analyze_seen@ == b.analyze_seen@,
            self.analyze_toclear@ == b.analyze_toclear@,
            self.analyze_clause@ == b.analyze_clause@.insert(0, pl.spec_not()),
        ensures
            self.scratch_ok(),
            lits_in_range(self.analyze_clause@, o.n() as nat),
            distinct(self.analyze_clause@),
            o.val(self.analyze_clause@[0]) == VarValue::False,
            o.lvl(self.analyze_clause@[0]) == o.dl(),
            forall|k: int|
                1 <= k < self.analyze_clause@.len() ==> o.val(#[trigger] self.analyze_clause@[k]) == VarValue::False && 0
                    < o.lvl(self.analyze_clause@[k]) < o.dl(),
            forall|m: Seq<bool>| o.models(m) ==> clause_holds(m, self.analyze_clause@),
    {
        let ls = self.analyze_clause@;
        let buf = b.analyze_clause@;
        crate::lit::lemma_not_involutive(pl);
        assert forall|k: int| 1 <= k < ls.len() implies o.val(#[trigger] ls[k]) == VarValue::False && 0 < o.lvl(ls[k])
            < o.dl() && ls[k].spec_var() < o.n() by {
            assert(ls[k] == buf[k - 1]);
            assert(b.buf_ok(k - 1));
        }
        assert forall|k: int| 0 <= k < ls.len() implies (#[trigger] ls[k]).spec_var() < o.n() by {
            if k >= 1 {
                assert(o.val(ls[k]) == VarValue::False);
            }
        }
        assert forall|i: int, j: int| 0 <= i < j < ls.len() implies ls[i] != ls[j] by {
            assert(ls[j] == buf[j - 1]);
            assert(b.buf_ok(j - 1));
            if i >= 1 {
                assert(ls[i] == buf[i - 1]);
                assert(buf[i - 1].spec_var() != buf[j - 1].spec_var());
            }
        }
        assert forall|u: int| 0 <= u < self.n() && #[trigger] self.analyze_seen@[u] implies self.analyze_toclear@.contains(
            u as usize,
        ) by {
            assert(b.analyze_seen@[u]);
        }
        assert forall|m: Seq<bool>| o.models(m) implies clause_holds(m, self.analyze_clause@) by {
            assert(b.picked_holds(m, pend, pl));
            assert(pend.len() == 0);
            if clause_holds(m, buf) {
                let k = choose|k: int| 0 <= k < buf.len() && #[trigger] lit_holds(m, buf[k]);
                assert(ls[k + 1] == buf[k]);
                assert(lit_holds(m, ls[k + 1]));
            } else if exists|v: int| #[trigger] pend.contains(v) && !lit_holds(m, b.trail_lit(v)) {
                let v = choose|v: int| #[trigger] pend.contains(v) && !lit_holds(m, b.trail_lit(v));
                assert(pend.contains(v));
                assert(false);
            } else {
                assert(lit_holds(m, ls[0]));
            }
        }
    }

    /// First-UIP conflict analysis. Resolves the conflict clause with the
    /// reasons of the literals of the current level, latest first, until one
    /// such literal is left; returns the learned clause, that literal's
    /// negation first, and the level to backtrack to: the highest level among
    /// the other literals, or 0.
    pub(crate) fn analyze(&mut self, conflict_idx: usize) -> (r: (Vec<Lit>, usize))
        requires
            old(self).wf(),
            old(self).dl() > 0,
            old(self).cur_ok(conflict_idx as int, None, old(self).trail@.len() as int),
        ensures
            final(self).wf(),
            final(self).scratch_only(old(self)),
            final(self).extends(old(self)),
            forall|q: int| old(self).guarded_at(q) ==> final(self).guarded_at(q),
            final(self).asserting(r.0@, r.1 as int),
            forall|m: Seq<bool>| old(self).models(m) ==> clause_holds(m, r.0@),
    {
        let ghost o = *self;
        let mut t: usize = 0;
        while t < self.analyze_toclear.len()
            invariant
                o.wf(),
                self.scratch_only(&o),
                self.analyze_seen@.len() == o.n(),
                self.analyze_toclear@ == o.analyze_toclear@,
                forall|v: int|
                    0 <= v < o.n() && #[trigger] self.analyze_seen@[v] ==> exists|k: int|
                        t <= k < self.analyze_toclear@.len() && #[trigger] self.analyze_toclear@[k] == v,
            decreases self.analyze_toclear.len() - t,
        {
            let var = self.analyze_toclear[t];
            let ghost before = self.analyze_seen@;
            self.analyze_seen[var] = false;
            proof {
                assert forall|v: int| 0 <= v < o.n() && #[trigger] self.analyze_seen@[v] implies exists|k: int|
                    t + 1 <= k < self.analyze_toclear@.len() && #[trigger] self.analyze_toclear@[k] == v by {
                    assert(before[v]);
                    let k = choose|k: int| t <= k < self.analyze_toclear@.len() && #[trigger] self.analyze_toclear@[k] == v;
                    assert(k != t);
                }
            }
            t = t + 1;
        }
        self.analyze_toclear.clear();
        self.analyze_clause.clear();

        let mut counter: usize = 0;
        let mut current_clause_idx: Option<usize> = Some(conflict_idx);
        let mut p: Option<Lit> = None;
        let mut index: usize = self.trail.len();
        let ghost mut pend: Set<int> = Set::empty();
        proof {
            assert forall|v: int| 0 <= v < o.n() implies !self.analyze_seen@[v] by {
                if self.analyze_seen@[v] {
                    let k = choose|k: int|
                        t <= k < o.analyze_toclear@.len() && #[trigger] o.analyze_toclear@[k] == v;
                }
            }
            self.lemma_analysis_start(&o, conflict_idx as int);
        }
        loop
            invariant_except_break
                current_clause_idx is Some,
                self.resolving(&o, current_clause_idx->0 as int, p, index as int, counter as int, pend, 0),
            invariant
                o == *old(self),
                o.wf(),
                o.dl() > 0,
            ensures
                p is Some,
                self.picked(&o, p->0, index as int, 0, pend),
            decreases index,
        {
            let ghost index0 = index;
            match current_clause_idx {
                Some(c_idx) => {
                    let len = self.clauses[c_idx].lits.len();
                    let mut i: usize = 0;
                    while i < len
                        invariant
                            o == *old(self),
                            o.wf(),
                            o.dl() > 0,
                            len == o.lits(c_idx as int).len(),
                            index == index0,
                            self.resolving(&o, c_idx as int, p, index as int, counter as int, pend, i as int),
                        decreases len - i,
                    {
                        let lit = self.clauses[c_idx].lits[i];
                        let is_pivot = i == 0 && match p {
                            Some(pl) => lit == pl,
                            None => false,
                        };
                        proof {
                            assert(o.clause_ok(c_idx as int));
                            if p is Some && i == 0 {
                                assert(o.var_at((p->0).spec_var()));
                                assert(o.reason_ok((p->0).spec_var(), c_idx as int));
                            }
                        }
                        let var = lit.var();
                        if !is_pivot && !self.analyze_seen[var] && self.level[var] > 0 {
                            let ghost b = *self;
                            self.analyze_seen[var] = true;
                            self.analyze_toclear.push(var);
                            if self.level[var] == self.decision_level() {
                                proof {
                                    self.lemma_resolve_mark(&b, &o, c_idx as int, p, index as int, counter as int, pend, i as int);
                                    pend = pend.insert(var as int);
                                }
                                counter = counter + 1;
                            } else {
                                self.analyze_clause.push(lit);
                                proof {
                                    self.lemma_resolve_mark(&b, &o, c_idx as int, p, index as int, counter as int, pend, i as int);
                                }
                            }
                        } else {
                            proof {
                                self.lemma_resolve_skip(&o, c_idx as int, p, index as int, counter as int, pend, i as int);
                            }
                        }
                        i = i + 1;
                    }
                },
                None => {},
            }
            let ghost c = current_clause_idx->0 as int;
            proof {
                // the conflict clause has a literal of the current level, so something is pending
                if p is None {
                    let k = choose|k: int| 0 <= k < o.lits(c).len() && o.lvl(#[trigger] o.lits(c)[k]) == o.dl();
                    let l1 = o.lits(c)[k];
                    assert(o.clause_ok(c));
                    assert(self.analyze_seen@[l1.spec_var()]);
                    assert(self.pend_ok(pend, index as int, l1.spec_var()));
                    assert(pend.contains(l1.spec_var()));
                }
                assert(counter > 0);
                self.lemma_walk(&o, index as int, counter as int, pend);
                if p is Some {
                    assert(o.var_at((p->0).spec_var()));
                    assert(o.reason_ok((p->0).spec_var(), c));
                }
                assert forall|m: Seq<bool>| o.models(m) implies #[trigger] self.resolvent_holds(
                    m,
                    pend,
                    o.lits(c),
                    o.lits(c).len() as int,
                ) by {
                    assert(self.resolvent_holds(m, pend, o.lits(c), start_of(p, o.lits(c).len() as int)));
                }
            }
            while !self.analyze_seen[self.trail[index - 1].var()]
                invariant
                    o == *old(self),
                    o.wf(),
                    self.marks_ok(&o, index as int, counter as int, pend),
                    counter > 0,
                    index >= 1,
                    index <= index0,
                    o.trail@[index - 1].spec_var() < o.n(),
                    !self.analyze_seen@[o.trail@[index - 1].spec_var()] ==> self.marks_ok(
                        &o,
                        index - 1,
                        counter as int,
                        pend,
                    ),
                    forall|m: Seq<bool>|
                        o.models(m) ==> #[trigger] self.resolvent_holds(m, pend, o.lits(c), o.lits(c).len() as int),
                decreases index,
            {
                index = index - 1;
                proof {
                    self.lemma_walk(&o, index as int, counter as int, pend);
                }
            }
            index = index - 1;
            let current_lit = self.trail[index];
            p = Some(current_lit);
            current_clause_idx = self.reason[current_lit.var()];
            let ghost b = *self;
            self.analyze_seen[current_lit.var()] = false;
            proof {
                self.lemma_pick(&b, &o, c, p, index + 1, counter as int, pend);
                pend = pend.remove(current_lit.spec_var());
            }
            counter = counter - 1;
            if counter == 0 {
                break ;
            }
        }

        let ghost b = *self;
        match p {
            Some(lit) => {
                self.analyze_clause.insert(0, lit.not());
            },
            None => {},
        }
        proof {
            self.lemma_learned(&b, &o, p->0, index as int, pend);
            self.lemma_scratch_wf(&o);
        }
        let mut backtrack_level: usize = 0;
        let mut k: usize = 1;
        while k < self.analyze_clause.len()
            invariant
                o.wf(),
                self.scratch_only(&o),
                1 <= k <= self.analyze_clause@.len(),
                lits_in_range(self.analyze_clause@, o.n() as nat),
                forall|j: int|
                    1 <= j < self.analyze_clause@.len() ==> 0 < o.lvl(#[trigger] self.analyze_clause@[j]) < o.dl(),
                forall|j: int| 1 <= j < k ==> o.lvl(#[trigger] self.analyze_clause@[j]) <= backtrack_level,
                k == 1 ==> backtrack_level == 0,
                k > 1 ==> exists|j: int| 1 <= j < k && o.lvl(#[trigger] self.analyze_clause@[j]) == backtrack_level,
                backtrack_level < o.dl(),
            decreases self.analyze_clause@.len() - k,
        {
            let lv = self.level[self.analyze_clause[k].var()];
            if lv > backtrack_level {
                backtrack_level = lv;
            }
            proof {
                if lv == backtrack_level {
                    assert(1 <= k < k + 1 && o.lvl(self.analyze_clause@[k as int]) == backtrack_level);
                } else {
                    let j = choose|j: int| 1 <= j < k && o.lvl(#[trigger] self.analyze_clause@[j]) == backtrack_level;
                    assert(1 <= j < k + 1 && o.lvl(self.analyze_clause@[j]) == backtrack_level);
                }
            }
            k = k + 1;
        }
        let learned = self.analyze_clause.clone();
        proof {
            assert(learned@ =~= self.analyze_clause@);
        }
        (learned, backtrack_level)
    }
}

} // verus!
