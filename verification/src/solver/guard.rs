//! The two-watched-literal invariant: that it survives enqueueing,
//! backtracking and each step of a scan over a detached watch list, and that
//! it makes a total assignment with an empty queue satisfy every clause.

use vstd::prelude::*;
use crate::lit::{
    clause_holds, clause_satisfied, lit_holds, lit_value, model_of, Clause, Lit, VarValue,
};
use crate::solver::lemmas::lemma_neg_code;
use crate::solver::propagate::Action;
use crate::solver::{entry_ok, has_entry, list_ok, Solver, Watcher};

verus! {

/// Position `e` of a detached list of length `len` holds an entry that
/// counts: one of the `j` kept, or one not yet visited, from `i` on.
pub(crate) open spec fn live(len: int, i: int, j: int, e: int) -> bool {
    0 <= e < j || i <= e < len
}

/// The entries of the detached list of the literal with code `x` that count
/// are sound, and no clause has two of them.
pub(crate) open spec fn detached_ok(cls: Seq<Clause>, n: int, x: int, ws: Seq<Watcher>, i: int, j: int) -> bool {
    &&& 0 <= j <= i <= ws.len()
    &&& forall|e: int| live(ws.len() as int, i, j, e) ==> entry_ok(cls, n, x, #[trigger] ws[e])
    &&& forall|e1: int, e2: int|
        live(ws.len() as int, i, j, e1) && live(ws.len() as int, i, j, e2) && e1 < e2 ==> (#[trigger] ws[e1]).clause_idx
            != (#[trigger] ws[e2]).clause_idx
}

/// The detached list has an entry for clause `c` that counts.
pub(crate) open spec fn detached_has(ws: Seq<Watcher>, i: int, j: int, c: int) -> bool {
    exists|e: int| live(ws.len() as int, i, j, e) && (#[trigger] ws[e]).clause_idx == c
}

/// The detached list has an entry for clause `c` that was not visited yet.
pub(crate) open spec fn pending_has(ws: Seq<Watcher>, i: int, c: int) -> bool {
    exists|e: int| i <= e < ws.len() && (#[trigger] ws[e]).clause_idx == c
}

impl Solver {
    /// Clause `c` has an entry in the list with code `y`, where the list with
    /// code `x` is the detached one.
    pub open(crate) spec fn has_watch(&self, c: int, y: int, x: int, ws: Seq<Watcher>, i: int, j: int) -> bool {
        if y == x {
            detached_has(ws, i, j, c)
        } else {
            has_entry(self.watches@[y]@, c)
        }
    }

    /// Clause `c` is watched through its first two literals, counting the
    /// detached list.
    pub open(crate) spec fn watched_det(&self, c: int, x: int, ws: Seq<Watcher>, i: int, j: int) -> bool {
        let ls = self.lits(c);
        ls.len() >= 2 ==> self.has_watch(c, ls[0].spec_not().code(), x, ws, i, j) && self.has_watch(
            c,
            ls[1].spec_not().code(),
            x,
            ws,
            i,
            j,
        )
    }

    /// What holds of clause `c` during the scan of the list of `p`: it is
    /// watched; if `guard`, it is guarded as of before `p` was taken from the
    /// queue and, while no conflict was found (`open`), guarded as of now
    /// unless its entry is still to be visited; if `strict`, the same of the
    /// strict form, but for the clause `skip` whose forced literal is about to
    /// be enqueued.
    pub open(crate) spec fn scan_guard(
        &self,
        c: int,
        p: Lit,
        ws: Seq<Watcher>,
        i: int,
        j: int,
        open: bool,
        guard: bool,
        strict: bool,
        skip: int,
    ) -> bool {
        &&& self.watched_det(c, p.code(), ws, i, j)
        &&& guard ==> self.clause_guarded(c, self.q_head - 1) && (open ==> self.clause_guarded(c, self.q_head as int)
            || pending_has(ws, i, c))
        &&& strict ==> self.clause_strict(c, self.q_head - 1) && (open && c != skip ==> self.clause_strict(
            c,
            self.q_head as int,
        ) || pending_has(ws, i, c))
    }

    /// The scan invariant for every clause.
    pub open(crate) spec fn scan_guards(
        &self,
        p: Lit,
        ws: Seq<Watcher>,
        i: int,
        j: int,
        open: bool,
        guard: bool,
        strict: bool,
        skip: int,
    ) -> bool {
        forall|c: int|
            0 <= c < self.clauses@.len() ==> #[trigger] self.scan_guard(c, p, ws, i, j, open, guard, strict, skip)
    }

    /// A clause that was guarded stays guarded when a literal is enqueued.
    pub(crate) proof fn lemma_guard_enqueued(&self, o: &Solver, lit: Lit, reason: Option<usize>, c: int, q: int)
        requires
            o.wf_core(),
            lit.spec_var() < o.n(),
            self.enqueued(o, lit, reason),
            0 <= c < o.clauses@.len(),
            q <= o.trail@.len(),
            o.clause_guarded(c, q),
        ensures
            self.clause_guarded(c, q),
    {
        if o.val(lit) == VarValue::Unassigned {
            let ls = o.lits(c);
            let v = lit.spec_var();
            assert(o.var_at(v));
            assert(o.clause_ok(c));
            if ls.len() >= 2 {
                assert(ls[0].spec_var() < o.n());
                assert(ls[1].spec_var() < o.n());
                if o.val(ls[0]) != VarValue::False {
                } else if o.val(ls[1]) != VarValue::False {
                } else if o.at(ls[0]) >= q {
                } else if o.at(ls[1]) >= q {
                } else {
                    let j = choose|j: int|
                        0 <= j < ls.len() && o.val(#[trigger] ls[j]) == VarValue::True && (o.lvl(ls[j]) <= o.lvl(ls[0])
                            || o.lvl(ls[j]) <= o.lvl(ls[1]));
                    assert(self.val(ls[j]) == VarValue::True);
                }
            }
        }
    }

    /// A clause with a True literal keeps it when a literal is enqueued.
    pub(crate) proof fn lemma_satisfied_enqueued(&self, o: &Solver, lit: Lit, reason: Option<usize>, c: int)
        requires
            o.wf_core(),
            lit.spec_var() < o.n(),
            self.enqueued(o, lit, reason),
            0 <= c < o.clauses@.len(),
            clause_satisfied(o.assignments@, o.lits(c)),
        ensures
            clause_satisfied(self.assignments@, self.lits(c)),
    {
        let ls = o.lits(c);
        let j = choose|j: int| 0 <= j < ls.len() && #[trigger] lit_value(o.assignments@, ls[j]) == VarValue::True;
        assert(o.clause_ok(c));
        assert(ls[j].spec_var() < o.n());
        assert(lit_value(self.assignments@, ls[j]) == VarValue::True);
    }

    /// A clause that met the strict form still meets it when a literal is
    /// enqueued.
    pub(crate) proof fn lemma_strict_enqueued(&self, o: &Solver, lit: Lit, reason: Option<usize>, c: int, q: int)
        requires
            o.wf_core(),
            lit.spec_var() < o.n(),
            self.enqueued(o, lit, reason),
            0 <= c < o.clauses@.len(),
            q <= o.trail@.len(),
            o.clause_strict(c, q),
        ensures
            self.clause_strict(c, q),
    {
        if o.val(lit) == VarValue::Unassigned {
            let ls = o.lits(c);
            assert(o.var_at(lit.spec_var()));
            assert(o.clause_ok(c));
            if ls.len() >= 2 {
                assert(ls[0].spec_var() < o.n());
                assert(ls[1].spec_var() < o.n());
                if clause_satisfied(o.assignments@, ls) {
                    self.lemma_satisfied_enqueued(o, lit, reason, c);
                }
            }
        }
    }

    /// Enqueueing keeps the scan invariant, and settles the clause that
    /// forced the literal.
    pub(crate) proof fn lemma_scan_enqueued(
        &self,
        o: &Solver,
        lit: Lit,
        reason: Option<usize>,
        p: Lit,
        ws: Seq<Watcher>,
        i: int,
        j: int,
        open: bool,
        guard: bool,
        strict: bool,
        skip: int,
    )
        requires
            o.wf_core(),
            lit.spec_var() < o.n(),
            self.enqueued(o, lit, reason),
            0 < o.q_head <= o.trail@.len(),
            o.scan_guards(p, ws, i, j, open, guard, strict, skip),
            skip >= 0 ==> skip < o.clauses@.len() && o.lits(skip).len() >= 1 && o.lits(skip)[0] == lit && o.val(lit)
                == VarValue::Unassigned,
        ensures
            self.scan_guards(p, ws, i, j, open, guard, strict, -1),
    {
        assert forall|c: int| 0 <= c < self.clauses@.len() implies #[trigger] self.scan_guard(
            c,
            p,
            ws,
            i,
            j,
            open,
            guard,
            strict,
            -1,
        ) by {
            assert(o.scan_guard(c, p, ws, i, j, open, guard, strict, skip));
            if guard {
                self.lemma_guard_enqueued(o, lit, reason, c, o.q_head - 1);
                if open && o.clause_guarded(c, o.q_head as int) {
                    self.lemma_guard_enqueued(o, lit, reason, c, o.q_head as int);
                }
            }
            if strict {
                self.lemma_strict_enqueued(o, lit, reason, c, o.q_head - 1);
                if open && c != skip && o.clause_strict(c, o.q_head as int) {
                    self.lemma_strict_enqueued(o, lit, reason, c, o.q_head as int);
                }
                if c == skip {
                    assert(lit_value(self.assignments@, self.lits(c)[0]) == VarValue::True);
                    assert(clause_satisfied(self.assignments@, self.lits(c)));
                }
            }
        }
    }

    /// Enqueueing keeps the two-watched-literal invariant.
    pub(crate) proof fn lemma_guarded_enqueued(&self, o: &Solver, lit: Lit, reason: Option<usize>, q: int)
        requires
            o.wf_core(),
            lit.spec_var() < o.n(),
            self.enqueued(o, lit, reason),
            q <= o.trail@.len(),
            o.guarded_at(q),
        ensures
            self.guarded_at(q),
    {
        assert forall|c: int| 0 <= c < self.clauses@.len() implies #[trigger] self.clause_guarded(c, q) by {
            assert(o.clause_guarded(c, q));
            self.lemma_guard_enqueued(o, lit, reason, c, q);
        }
    }

    /// Enqueueing keeps the strict two-watched-literal invariant.
    pub(crate) proof fn lemma_strict_kept_enqueued(&self, o: &Solver, lit: Lit, reason: Option<usize>, q: int)
        requires
            o.wf_core(),
            lit.spec_var() < o.n(),
            self.enqueued(o, lit, reason),
            q <= o.trail@.len(),
            o.strict_at(q),
        ensures
            self.strict_at(q),
    {
        assert forall|c: int| 0 <= c < self.clauses@.len() implies #[trigger] self.clause_strict(c, q) by {
            assert(o.clause_strict(c, q));
            self.lemma_strict_enqueued(o, lit, reason, c, q);
        }
    }

    /// The scan invariant holds when the scan of the list of `p` begins.
    pub(crate) proof fn lemma_scan_start(&self, o: &Solver, p: Lit, guard: bool, strict: bool)
        requires
            o.wf(),
            guard ==> o.guarded(),
            strict ==> o.strict(),
            o.q_head < o.trail@.len(),
            p == o.trail@[o.q_head as int],
            self.requeued(o),
            self.q_head == o.q_head + 1,
            forall|x: int| 0 <= x < o.watches@.len() && x != p.code() ==> #[trigger] self.watches@[x] == o.watches@[x],
        ensures
            self.scan_guards(p, o.watches@[p.code()]@, 0, 0, true, guard, strict, -1),
            detached_ok(self.clauses@, self.n(), p.code(), o.watches@[p.code()]@, 0, 0),
    {
        assert(o.entry_at(o.q_head as int));
        let x = p.code();
        let ws = o.watches@[x]@;
        assert(list_ok(o.clauses@, o.n(), x, ws));
        assert forall|c: int| 0 <= c < self.clauses@.len() implies #[trigger] self.scan_guard(
            c,
            p,
            ws,
            0,
            0,
            true,
            guard,
            strict,
            -1,
        ) by {
            assert(o.clause_watched(c));
            assert(o.clause_ok(c));
            let ls = o.lits(c);
            if ls.len() >= 2 {
                let y0 = ls[0].spec_not().code();
                let y1 = ls[1].spec_not().code();
                if y0 == x {
                    let e = choose|e: int| 0 <= e < ws.len() && (#[trigger] ws[e]).clause_idx == c;
                    assert(live(ws.len() as int, 0, 0, e));
                    assert(pending_has(ws, 0, c));
                } else {
                    assert(self.watches@[y0] == o.watches@[y0]);
                }
                if y1 == x {
                    let e = choose|e: int| 0 <= e < ws.len() && (#[trigger] ws[e]).clause_idx == c;
                    assert(live(ws.len() as int, 0, 0, e));
                    assert(pending_has(ws, 0, c));
                } else {
                    assert(self.watches@[y1] == o.watches@[y1]);
                }
                if self.val(ls[0]) == VarValue::False {
                    o.lemma_false_on_trail(ls[0]);
                    if o.at(ls[0]) == o.q_head {
                        lemma_neg_code(ls[0], p);
                    }
                }
                if self.val(ls[1]) == VarValue::False {
                    o.lemma_false_on_trail(ls[1]);
                    if o.at(ls[1]) == o.q_head {
                        lemma_neg_code(ls[1], p);
                    }
                }
            }
            if guard {
                assert(o.clause_guarded(c, o.q_head as int));
            }
            if strict {
                assert(o.clause_strict(c, o.q_head as int));
            }
        }
    }

    /// The scan invariant survives keeping an entry as it is: after a
    /// conflict, or when the blocker of the entry is True.
    pub(crate) proof fn lemma_scan_copied(
        &self,
        p: Lit,
        ws: Seq<Watcher>,
        i: int,
        j: int,
        open: bool,
        guard: bool,
        strict: bool,
    )
        requires
            self.wf_core(),
            0 < self.q_head <= self.trail@.len(),
            p == self.trail@[self.q_head - 1],
            self.dl() > 0 ==> self.trail_lim@[self.dl() - 1] <= self.q_head - 1,
            detached_ok(self.clauses@, self.n(), p.code(), ws, i, j),
            i < ws.len(),
            self.scan_guards(p, ws, i, j, open, guard, strict, -1),
            open ==> self.val(ws[i].blocker) == VarValue::True,
        ensures
            self.scan_guards(p, ws.update(j, ws[i]), i + 1, j + 1, open, guard, strict, -1),
            detached_ok(self.clauses@, self.n(), p.code(), ws.update(j, ws[i]), i + 1, j + 1),
    {
        let x = p.code();
        let len = ws.len() as int;
        let ws2 = ws.update(j, ws[i]);
        let w = ws[i];
        assert(live(len, i, j, i));
        assert forall|e: int| live(len, i + 1, j + 1, e) implies entry_ok(
            self.clauses@,
            self.n(),
            x,
            #[trigger] ws2[e],
        ) by {
            if e == j {
                assert(entry_ok(self.clauses@, self.n(), x, ws[i]));
            } else {
                assert(live(len, i, j, e));
                assert(entry_ok(self.clauses@, self.n(), x, ws[e]));
            }
        }
        assert forall|e1: int, e2: int|
            live(len, i + 1, j + 1, e1) && live(len, i + 1, j + 1, e2) && e1 < e2 implies (#[trigger] ws2[e1]).clause_idx
            != (#[trigger] ws2[e2]).clause_idx by {
            let f1 = if e1 == j { i } else { e1 };
            let f2 = if e2 == j { i } else { e2 };
            assert(live(len, i, j, f1));
            assert(live(len, i, j, f2));
            assert(ws2[e1] == ws[f1]);
            assert(ws2[e2] == ws[f2]);
            if f1 < f2 {
                assert(ws[f1].clause_idx != ws[f2].clause_idx);
            } else {
                assert(f2 < f1);
                assert(ws[f2].clause_idx != ws[f1].clause_idx);
            }
        }
        assert forall|c: int| 0 <= c < self.clauses@.len() implies #[trigger] self.scan_guard(
            c,
            p,
            ws2,
            i + 1,
            j + 1,
            open,
            guard,
            strict,
            -1,
        ) by {
            assert(self.scan_guard(c, p, ws, i, j, open, guard, strict, -1));
            if detached_has(ws, i, j, c) {
                let e = choose|e: int| live(len, i, j, e) && (#[trigger] ws[e]).clause_idx == c;
                let f = if e == i { j } else { e };
                assert(live(len, i + 1, j + 1, f) && ws2[f].clause_idx == c);
            }
            if open && pending_has(ws, i, c) {
                let e = choose|e: int| i <= e < ws.len() && (#[trigger] ws[e]).clause_idx == c;
                if e == i {
                    self.lemma_blocked_guarded(c, p, w);
                } else {
                    assert(i + 1 <= e < ws2.len() && ws2[e].clause_idx == c);
                }
            }
        }
    }

    /// A clause that watches `!p`, the literal falsified last, and whose
    /// blocker is True is guarded.
    pub(crate) proof fn lemma_blocked_guarded(&self, c: int, p: Lit, w: Watcher)
        requires
            self.wf_core(),
            0 < self.q_head <= self.trail@.len(),
            p == self.trail@[self.q_head - 1],
            self.dl() > 0 ==> self.trail_lim@[self.dl() - 1] <= self.q_head - 1,
            entry_ok(self.clauses@, self.n(), p.code(), w),
            w.clause_idx == c,
            self.val(w.blocker) == VarValue::True,
        ensures
            self.clause_guarded(c, self.q_head as int),
            self.clause_strict(c, self.q_head as int),
    {
        let ls = self.lits(c);
        let q = self.q_head as int;
        self.lemma_top_level(q - 1);
        assert(self.entry_at(q - 1));
        self.lemma_true_on_trail(w.blocker);
        let b = choose|b: int| 0 <= b < ls.len() && ls[b] == w.blocker;
        assert(self.val(ls[b]) == VarValue::True);
        assert(lit_value(self.assignments@, ls[b]) == VarValue::True);
        assert(clause_satisfied(self.assignments@, ls));
        assert(self.lvl(ls[b]) <= self.dl());
        if ls[0].spec_not().code() == p.code() {
            lemma_neg_code(ls[0], p);
            assert(self.lvl(ls[0]) == self.dl());
        } else {
            lemma_neg_code(ls[1], p);
            assert(self.lvl(ls[1]) == self.dl());
        }
    }

    /// When every variable is assigned and the queue is empty, a guarded
    /// clause has a True literal.
    pub(crate) proof fn lemma_guarded_satisfied(&self, c: int)
        requires
            self.wf_core(),
            self.q_head == self.trail@.len(),
            forall|v: int| 0 <= v < self.n() ==> self.assignments@[v] != VarValue::Unassigned,
            0 <= c < self.clauses@.len(),
            self.clause_guarded(c, self.q_head as int),
        ensures
            clause_satisfied(self.assignments@, self.lits(c)),
    {
        let ls = self.lits(c);
        assert(self.clause_ok(c));
        if ls.len() >= 2 {
            assert(self.var_at(ls[0].spec_var()));
            assert(self.var_at(ls[1].spec_var()));
            if self.val(ls[0]) != VarValue::False {
                assert(lit_value(self.assignments@, ls[0]) == VarValue::True);
            } else if self.val(ls[1]) != VarValue::False {
                assert(lit_value(self.assignments@, ls[1]) == VarValue::True);
            } else {
                let j = choose|j: int|
                    0 <= j < ls.len() && self.val(#[trigger] ls[j]) == VarValue::True && (self.lvl(ls[j]) <= self.lvl(
                        ls[0],
                    ) || self.lvl(ls[j]) <= self.lvl(ls[1]));
                assert(lit_value(self.assignments@, ls[j]) == VarValue::True);
            }
        } else {
            assert(lit_value(self.assignments@, ls[0]) == VarValue::True);
        }
    }

    /// When every variable is assigned, the queue is empty and the
    /// two-watched-literal invariant holds, the assignment is a model.
    pub(crate) proof fn lemma_total_is_model(&self)
        requires
            self.wf_core(),
            self.ok,
            self.guarded(),
            self.q_head == self.trail@.len(),
            forall|v: int| 0 <= v < self.n() ==> self.assignments@[v] != VarValue::Unassigned,
        ensures
            self.models(model_of(self.assignments@)),
    {
        let m = model_of(self.assignments@);
        assert forall|c: int| 0 <= c < self.clauses@.len() implies clause_holds(m, #[trigger] self.lits(c)) by {
            assert(self.clause_guarded(c, self.q_head as int));
            self.lemma_guarded_satisfied(c);
            let ls = self.lits(c);
            assert(self.clause_ok(c));
            let k = choose|k: int| 0 <= k < ls.len() && #[trigger] lit_value(self.assignments@, ls[k]) == VarValue::True;
            assert(ls[k].spec_var() < self.n());
            assert(lit_holds(m, ls[k]));
        }
        assert forall|i: int| 0 <= i < self.root_end() implies lit_holds(m, #[trigger] self.trail@[i]) by {
            assert(self.inv_lims());
            if self.dl() > 0 {
                assert(self.trail_lim@[0] <= self.trail@.len());
            }
            assert(self.entry_at(i));
        }
    }
}

impl Solver {
    /// The scan invariant survives the revision of the clause of the entry
    /// at hand: the entry is kept, with the blocker it was given, unless the
    /// watch was moved.
    pub(crate) proof fn lemma_scan_revised(
        &self,
        b: &Solver,
        c: int,
        p: Lit,
        action: Option<Action>,
        stop: bool,
        w: Watcher,
        ws: Seq<Watcher>,
        i: int,
        j: int,
        guard: bool,
        strict: bool,
    )
        requires
            b.wf_core(),
            self.wf_core(),
            b.watching(c, p),
            self.revised(b, c, p, action, stop),
            0 < b.q_head <= b.trail@.len(),
            p == b.trail@[b.q_head - 1],
            detached_ok(b.clauses@, b.n(), p.code(), ws, i, j),
            i < ws.len(),
            ws[i].clause_idx == c,
            b.scan_guards(p, ws, i, j, true, guard, strict, -1),
            w.clause_idx == c,
            w.blocker == (if action is None && !stop {
                self.lits(c)[0]
            } else {
                ws[i].blocker
            }),
        ensures
            detached_ok(
                self.clauses@,
                self.n(),
                p.code(),
                if stop {
                    ws
                } else {
                    ws.update(j, w)
                },
                i + 1,
                if stop {
                    j
                } else {
                    j + 1
                },
            ),
            self.scan_guards(
                p,
                if stop {
                    ws
                } else {
                    ws.update(j, w)
                },
                i + 1,
                if stop {
                    j
                } else {
                    j + 1
                },
                !(action is Some && action->0 is Conflict),
                guard,
                strict,
                if action is Some && action->0 is Enqueue {
                    c
                } else {
                    -1
                },
            ),
    {
        let x = p.code();
        let len = ws.len() as int;
        let ws2 = if stop { ws } else { ws.update(j, w) };
        let j2 = if stop { j } else { j + 1 };
        let open = !(action is Some && action->0 is Conflict);
        let skip = if action is Some && action->0 is Enqueue { c } else { -1 };
        let other = self.lits(c)[0];
        assert(live(len, i, j, i));
        assert(b.clause_ok(c));
        assert(self.clause_ok(c));
        assert(entry_ok(b.clauses@, b.n(), x, ws[i]));
        assert(b.entry_at(b.q_head - 1));
        lemma_neg_code(p.spec_not(), p);
        // the other watched literal is not `!p`, so its list is not the detached one
        assert(other.spec_not().code() != x) by {
            if other.spec_not().code() == x {
                lemma_neg_code(other, p);
                assert(b.lits(c)[0] != b.lits(c)[1]);
            }
        }
        assert forall|e: int| live(len, i + 1, j2, e) implies entry_ok(self.clauses@, self.n(), x, #[trigger] ws2[e]) by {
            if !stop && e == j {
                assert(ws2[e] == w);
                if !(action is None) {
                    assert(b.lits(c).contains(ws[i].blocker));
                    let k = choose|k: int| 0 <= k < b.lits(c).len() && b.lits(c)[k] == ws[i].blocker;
                    assert(self.lits(c).contains(b.lits(c)[k]));
                } else {
                    assert(self.lits(c)[0] == w.blocker);
                }
            } else {
                assert(live(len, i, j, e));
                assert(ws2[e] == ws[e]);
                assert(entry_ok(b.clauses@, b.n(), x, ws[e]));
                if e < i {
                    assert(ws[e].clause_idx != ws[i].clause_idx);
                } else {
                    assert(ws[i].clause_idx != ws[e].clause_idx);
                }
                assert(self.clauses@[ws[e].clause_idx as int] == b.clauses@[ws[e].clause_idx as int]);
            }
        }
        assert forall|e1: int, e2: int|
            live(len, i + 1, j2, e1) && live(len, i + 1, j2, e2) && e1 < e2 implies (#[trigger] ws2[e1]).clause_idx != (
        #[trigger] ws2[e2]).clause_idx by {
            let f1 = if !stop && e1 == j { i } else { e1 };
            let f2 = if !stop && e2 == j { i } else { e2 };
            assert(live(len, i, j, f1));
            assert(live(len, i, j, f2));
            assert(ws2[e1].clause_idx == ws[f1].clause_idx);
            assert(ws2[e2].clause_idx == ws[f2].clause_idx);
            if f1 < f2 {
                assert(ws[f1].clause_idx != ws[f2].clause_idx);
            } else {
                assert(f2 < f1);
                assert(ws[f2].clause_idx != ws[f1].clause_idx);
            }
        }
        {
            assert forall|d: int| 0 <= d < self.clauses@.len() implies #[trigger] self.scan_guard(
                d,
                p,
                ws2,
                i + 1,
                j2,
                open,
                guard,
                strict,
                skip,
            ) by {
                assert(b.scan_guard(d, p, ws, i, j, true, guard, strict, -1));
                if d != c {
                    assert(self.clauses@[d] == b.clauses@[d]);
                    assert(b.clause_ok(d));
                    let ls = b.lits(d);
                    if detached_has(ws, i, j, d) {
                        let e = choose|e: int| live(len, i, j, e) && (#[trigger] ws[e]).clause_idx == d;
                        assert(live(len, i + 1, j2, e) && ws2[e].clause_idx == d);
                    }
                    if ls.len() >= 2 {
                        let y0 = ls[0].spec_not().code();
                        let y1 = ls[1].spec_not().code();
                        if y0 != x {
                            self.lemma_entry_stays(b, c, p, action, stop, y0, d);
                        }
                        if y1 != x {
                            self.lemma_entry_stays(b, c, p, action, stop, y1, d);
                        }
                    }
                    assert(self.clause_guarded(d, self.q_head - 1) == b.clause_guarded(d, b.q_head - 1));
                    assert(self.clause_guarded(d, self.q_head as int) == b.clause_guarded(d, b.q_head as int));
                    assert(self.clause_strict(d, self.q_head - 1) == b.clause_strict(d, b.q_head - 1));
                    assert(self.clause_strict(d, self.q_head as int) == b.clause_strict(d, b.q_head as int));
                    if pending_has(ws, i, d) {
                        let e = choose|e: int| i <= e < ws.len() && (#[trigger] ws[e]).clause_idx == d;
                        assert(i + 1 <= e < ws2.len() && ws2[e].clause_idx == d);
                    }
                } else {
                    let ls = self.lits(c);
                    let y0 = other.spec_not().code();
                    assert(has_entry(b.watches@[y0]@, c)) by {
                        if b.lits(c)[0] == other {
                            assert(b.has_watch(c, b.lits(c)[0].spec_not().code(), x, ws, i, j));
                        } else {
                            assert(b.has_watch(c, b.lits(c)[1].spec_not().code(), x, ws, i, j));
                        }
                    }
                    self.lemma_entry_stays(b, c, p, action, stop, y0, c);
                    if stop {
                        let y = ls[1].spec_not().code();
                        let list = self.watches@[y]@;
                        assert(list[list.len() - 1].clause_idx == c);
                        assert(has_entry(self.watches@[y]@, c));
                    } else {
                        assert(live(len, i + 1, j2, j) && ws2[j].clause_idx == c);
                        assert(ls[1].spec_not().code() == x);
                    }
                    assert(self.at(p.spec_not()) == self.q_head - 1);
                    if strict {
                        let q = self.q_head as int;
                        if clause_satisfied(b.assignments@, b.lits(c)) {
                            lemma_satisfied_same(b.assignments@, b.lits(c), ls);
                        }
                        if self.val(other) == VarValue::True {
                            assert(lit_value(self.assignments@, ls[0]) == VarValue::True);
                            assert(clause_satisfied(self.assignments@, ls));
                        }
                        if self.val(other) == VarValue::False {
                            // the other watched literal was falsified elsewhere than at the position of `p`
                            b.lemma_false_on_trail(other);
                            assert(b.at(other) != q - 1) by {
                                if b.at(other) == q - 1 {
                                    crate::lit::lemma_not_involutive(other);
                                    assert(other.spec_not() == p);
                                    assert(other == p.spec_not());
                                    assert(b.lits(c)[0] != b.lits(c)[1]);
                                }
                            }
                            assert(b.clause_strict(c, q - 1));
                            assert(b.val(other) == VarValue::False);
                            assert(b.at(other) >= q - 1 || clause_satisfied(b.assignments@, b.lits(c)));
                        }
                    }
                }
            }
        }
    }

    /// Revising clause `c` leaves an entry for clause `d` in a list where it was.
    pub(crate) proof fn lemma_entry_stays(
        &self,
        b: &Solver,
        c: int,
        p: Lit,
        action: Option<Action>,
        stop: bool,
        y: int,
        d: int,
    )
        requires
            self.revised(b, c, p, action, stop),
            0 <= y < b.watches@.len(),
            has_entry(b.watches@[y]@, d),
        ensures
            has_entry(self.watches@[y]@, d),
    {
        let list = b.watches@[y]@;
        let e = choose|e: int| 0 <= e < list.len() && (#[trigger] list[e]).clause_idx == d;
        if action is None && stop && y == self.lits(c)[1].spec_not().code() {
            assert(self.watches@[y]@[e] == list[e]);
        } else {
            assert(self.watches@[y] == b.watches@[y]);
            assert(self.watches@[y]@[e] == list[e]);
        }
    }

    /// Putting the kept entries back as the list of `p` gives sound watch lists.
    pub(crate) proof fn lemma_reattached(
        &self,
        b: &Solver,
        p: Lit,
        ws: Seq<Watcher>,
        j: int,
        open: bool,
        guard: bool,
        strict: bool,
    )
        requires
            b.wf_core(),
            p.spec_var() < b.n(),
            0 < b.q_head,
            self.requeued(b),
            self.q_head == b.q_head,
            detached_ok(b.clauses@, b.n(), p.code(), ws, ws.len() as int, j),
            forall|x: int| 0 <= x < b.watches@.len() && x != p.code() ==> #[trigger] self.watches@[x] == b.watches@[x],
            self.watches@[p.code()]@ == ws.take(j),
            b.scan_guards(p, ws, ws.len() as int, j, open, guard, strict, -1),
        ensures
            self.wf_core(),
            b.lims_strict() ==> self.lims_strict(),
            self.all_watched(),
            guard ==> self.guarded_at(self.q_head - 1),
            guard && open ==> self.guarded(),
            strict ==> self.strict_at(self.q_head - 1),
            strict && open ==> self.strict(),
    {
        let x = p.code();
        let len = ws.len() as int;
        let kept = ws.take(j);
        assert forall|y: int| 0 <= y < self.watches@.len() implies list_ok(
            self.clauses@,
            self.n(),
            y,
            #[trigger] self.watches@[y]@,
        ) by {
            if y == x {
                assert forall|e: int| 0 <= e < kept.len() implies entry_ok(self.clauses@, self.n(), y, #[trigger] kept[e]) by {
                    assert(live(len, len, j, e));
                    assert(kept[e] == ws[e]);
                }
                assert forall|e1: int, e2: int| 0 <= e1 < e2 < kept.len() implies (#[trigger] kept[e1]).clause_idx != (
                #[trigger] kept[e2]).clause_idx by {
                    assert(live(len, len, j, e1));
                    assert(live(len, len, j, e2));
                    assert(kept[e1] == ws[e1]);
                    assert(kept[e2] == ws[e2]);
                }
            } else {
                assert(self.watches@[y] == b.watches@[y]);
                assert(list_ok(b.clauses@, b.n(), y, b.watches@[y]@));
            }
        }
        self.lemma_requeued_wf(b);
        {
            assert forall|c: int| 0 <= c < self.clauses@.len() implies #[trigger] self.clause_watched(c) by {
                assert(b.scan_guard(c, p, ws, len, j, open, guard, strict, -1));
                assert(b.clause_ok(c));
                let ls = b.lits(c);
                if ls.len() >= 2 {
                    let y0 = ls[0].spec_not().code();
                    let y1 = ls[1].spec_not().code();
                    if detached_has(ws, len, j, c) {
                        let e = choose|e: int| live(len, len, j, e) && (#[trigger] ws[e]).clause_idx == c;
                        assert(kept[e] == ws[e]);
                        assert(has_entry(kept, c));
                    }
                    if y0 != x {
                        assert(self.watches@[y0] == b.watches@[y0]);
                    }
                    if y1 != x {
                        assert(self.watches@[y1] == b.watches@[y1]);
                    }
                }
            }
        }
        if guard {
            assert forall|c: int| 0 <= c < self.clauses@.len() implies #[trigger] self.clause_guarded(
                c,
                self.q_head - 1,
            ) by {
                assert(b.scan_guard(c, p, ws, len, j, open, guard, strict, -1));
            }
            if open {
                assert forall|c: int| 0 <= c < self.clauses@.len() implies #[trigger] self.clause_guarded(
                    c,
                    self.q_head as int,
                ) by {
                    assert(b.scan_guard(c, p, ws, len, j, open, guard, strict, -1));
                    if pending_has(ws, len, c) {
                        let e = choose|e: int| len <= e < ws.len() && (#[trigger] ws[e]).clause_idx == c;
                    }
                }
            }
        }
        if strict {
            assert forall|c: int| 0 <= c < self.clauses@.len() implies #[trigger] self.clause_strict(
                c,
                self.q_head - 1,
            ) by {
                assert(b.scan_guard(c, p, ws, len, j, open, guard, strict, -1));
            }
            if open {
                assert forall|c: int| 0 <= c < self.clauses@.len() implies #[trigger] self.clause_strict(
                    c,
                    self.q_head as int,
                ) by {
                    assert(b.scan_guard(c, p, ws, len, j, open, guard, strict, -1));
                    if pending_has(ws, len, c) {
                        let e = choose|e: int| len <= e < ws.len() && (#[trigger] ws[e]).clause_idx == c;
                    }
                }
            }
        }
    }

    /// Backtracking keeps the two-watched-literal invariant, provided every
    /// literal that still waited in the queue is undone.
    pub(crate) proof fn lemma_guarded_backtracked(&self, o: &Solver, level: int, q: int)
        requires
            o.wf(),
            level >= 0,
            self.backtracked(o, level),
            o.guarded_at(q),
            q >= self.trail@.len(),
        ensures
            self.guarded(),
    {
        let len = self.trail@.len() as int;
        assert forall|c: int| 0 <= c < self.clauses@.len() implies #[trigger] self.clause_guarded(c, self.q_head as int) by {
            assert(o.clause_guarded(c, q));
            assert(o.clause_ok(c));
            let ls = o.lits(c);
            if ls.len() >= 2 {
                assert(self.unwound_var(o, len, ls[0].spec_var()));
                assert(self.unwound_var(o, len, ls[1].spec_var()));
                if self.val(ls[0]) == VarValue::False && self.val(ls[1]) == VarValue::False {
                    assert(o.val(ls[0]) == VarValue::False);
                    assert(o.val(ls[1]) == VarValue::False);
                    assert(o.at(ls[0]) < len);
                    assert(o.at(ls[1]) < len);
                    let j = choose|j: int|
                        0 <= j < ls.len() && o.val(#[trigger] ls[j]) == VarValue::True && (o.lvl(ls[j]) <= o.lvl(ls[0])
                            || o.lvl(ls[j]) <= o.lvl(ls[1]));
                    let w = if o.lvl(ls[j]) <= o.lvl(ls[0]) { ls[0] } else { ls[1] };
                    o.lemma_false_on_trail(w);
                    o.lemma_true_on_trail(ls[j]);
                    self.lemma_kept_by_level(o, level, o.at(w), o.at(ls[j]));
                    assert(self.unwound_var(o, len, ls[j].spec_var()));
                    assert(self.val(ls[j]) == VarValue::True);
                }
            } else {
                assert(ls.len() == 1);
                assert(self.unwound_var(o, len, ls[0].spec_var()));
                o.lemma_true_on_trail(ls[0]);
                assert(o.entry_at(o.at(ls[0])));
                if level < o.dl() {
                    assert(o.trail_lim@[0] <= o.trail_lim@[level]) by {
                        if 0 < level {
                            assert(o.trail_lim@[0] < o.trail_lim@[level]);
                        }
                    }
                }
            }
        }
    }

    /// If the trail entry at `a` survives a backtrack and the entry at `b` is
    /// at no higher a level, then the entry at `b` survives too.
    pub(crate) proof fn lemma_kept_by_level(&self, o: &Solver, level: int, a: int, b: int)
        requires
            o.wf(),
            level >= 0,
            self.backtracked(o, level),
            0 <= a < self.trail@.len(),
            0 <= b < o.trail@.len(),
            o.lvl(o.trail@[b]) <= o.lvl(o.trail@[a]),
        ensures
            b < self.trail@.len(),
    {
        if level < o.dl() {
            assert(o.entry_at(a));
            assert(o.entry_at(b));
            let la = o.lvl(o.trail@[a]);
            let lb = o.lvl(o.trail@[b]);
            if la > level {
                assert(o.trail_lim@[level] <= o.trail_lim@[la - 1]) by {
                    if level < la - 1 {
                        assert(o.trail_lim@[level] < o.trail_lim@[la - 1]);
                    }
                }
            }
            assert(la <= level);
            assert(o.trail_lim@[lb] <= o.trail_lim@[level]) by {
                if lb < level {
                    assert(o.trail_lim@[lb] < o.trail_lim@[level]);
                }
            }
        }
    }
}

/// A clause with a True literal has one in whatever order its literals stand.
pub(crate) proof fn lemma_satisfied_same(a: Seq<VarValue>, c: Seq<Lit>, d: Seq<Lit>)
    requires
        crate::lit::same_lits(d, c),
        clause_satisfied(a, c),
    ensures
        clause_satisfied(a, d),
{
    let k = choose|k: int| 0 <= k < c.len() && #[trigger] lit_value(a, c[k]) == VarValue::True;
    assert(d.contains(c[k]));
    let j = choose|j: int| 0 <= j < d.len() && d[j] == c[k];
    assert(lit_value(a, d[j]) == VarValue::True);
}

} // verus!
