//! Boolean constraint propagation with two watched literals per clause.

use vstd::prelude::*;
use crate::lit::{clause_falsified, clause_satisfied, lemma_swap_same_lits, same_lits, Lit, VarValue};
use crate::solver::guard::detached_ok;
use crate::solver::lemmas::lemma_neg_code;
use crate::solver::{entry_ok, has_entry, list_ok, Solver, Watcher};

verus! {

/// What reading a clause asks of the propagation loop.
#[derive(Copy, Clone)]
pub(crate) enum Action {
    /// Every literal of the clause is False.
    Conflict(usize),
    /// The clause forces the literal.
    Enqueue(Lit, usize),
}

/// Literals with the same negation are the same.
pub(crate) proof fn lemma_not_injective(a: Lit, b: Lit)
    requires
        a.spec_not().code() == b.spec_not().code(),
    ensures
        a == b,
{
    crate::lit::lemma_not_code(a);
    crate::lit::lemma_not_code(b);
    assert(a.0 == b.0);
}

impl Solver {
    /// Clause `c` watches `!p`, which has just become False, and the watch
    /// list of `p` has been detached.
    pub open(crate) spec fn watching(&self, c: int, p: Lit) -> bool {
        &&& 0 <= c < self.clauses@.len()
        &&& self.lits(c).len() >= 2
        &&& p.spec_var() < self.n()
        &&& self.val(p) == VarValue::True
        &&& (self.lits(c)[0] == p.spec_not() || self.lits(c)[1] == p.spec_not())
        &&& self.watches@[p.code()]@.len() == 0
    }

    /// Everything but clauses and watch lists is as in `o`, and every clause
    /// but `c` too.
    pub open(crate) spec fn same_but_clause(&self, o: &Solver, c: int) -> bool {
        &&& self.assignments == o.assignments
        &&& self.level == o.level
        &&& self.reason == o.reason
        &&& self.trail == o.trail
        &&& self.trail_lim == o.trail_lim
        &&& self.q_head == o.q_head
        &&& self.num_vars == o.num_vars
        &&& self.ok == o.ok
        &&& self.analyze_seen == o.analyze_seen
        &&& self.analyze_toclear == o.analyze_toclear
        &&& self.analyze_clause == o.analyze_clause
        &&& self.pos == o.pos
        &&& self.clauses@.len() == o.clauses@.len()
        &&& self.watches@.len() == o.watches@.len()
        &&& forall|d: int| 0 <= d < o.clauses@.len() && d != c ==> #[trigger] self.clauses@[d] == o.clauses@[d]
        &&& self.clauses@[c].learned == o.clauses@[c].learned
        &&& same_lits(self.lits(c), o.lits(c))
    }

    /// This state is `o` after clause `c`, which watched `!p`, was revised
    /// with the outcome `(action, stop)`: the other watched literal now comes
    /// first, and
    /// - `(None, false)`: it is True, and `!p` is still watched;
    /// - `(None, true)`: a literal that is not False has taken the place of
    ///   `!p`, and its watch list has a new entry for the clause;
    /// - a conflict: every literal is False;
    /// - an enqueue: the other watched literal is unassigned and every other
    ///   literal is False.
    pub open(crate) spec fn revised(&self, o: &Solver, c: int, p: Lit, action: Option<Action>, stop: bool) -> bool {
        let other = if o.lits(c)[0] == p.spec_not() {
            o.lits(c)[1]
        } else {
            o.lits(c)[0]
        };
        &&& self.same_but_clause(o, c)
        &&& self.lits(c)[0] == other
        &&& match action {
            None => if stop {
                let y = self.lits(c)[1].spec_not().code();
                &&& self.val(self.lits(c)[1]) != VarValue::False
                &&& self.val(other) != VarValue::True
                &&& y != p.code()
                &&& 0 <= y < o.watches@.len()
                &&& forall|x: int| 0 <= x < o.watches@.len() && x != y ==> #[trigger] self.watches@[x] == o.watches@[x]
                &&& self.watches@[y]@ == o.watches@[y]@.push(Watcher { clause_idx: c as usize, blocker: other })
            } else {
                &&& self.watches == o.watches
                &&& self.lits(c)[1] == p.spec_not()
                &&& self.val(other) == VarValue::True
            },
            Some(Action::Conflict(i)) => {
                &&& !stop
                &&& i == c
                &&& self.watches == o.watches
                &&& self.lits(c)[1] == p.spec_not()
                &&& clause_falsified(self.assignments@, self.lits(c))
            },
            Some(Action::Enqueue(l, i)) => {
                &&& !stop
                &&& i == c
                &&& l == other
                &&& self.watches == o.watches
                &&& self.lits(c)[1] == p.spec_not()
                &&& self.val(l) == VarValue::Unassigned
                &&& self.forces(c, l)
            },
        }
    }

    /// Revises clause `cr_idx` after its watched literal `!p` became False:
    /// keeps the watch if the other watched literal is True, moves it to a
    /// literal that is not False if there is one, and else reports a
    /// conflict or the literal that the clause forces.
    pub(crate) fn revise_watch(&mut self, cr_idx: usize, p: Lit, watcher: &mut Watcher) -> (r: (
        Option<Action>,
        bool,
    ))
        requires
            old(self).wf_core(),
            old(self).watching(cr_idx as int, p),
            old(watcher).clause_idx == cr_idx,
        ensures
            final(self).wf_core(),
            old(self).lims_strict() ==> final(self).lims_strict(),
            final(self).revised(old(self), cr_idx as int, p, r.0, r.1),
            final(watcher).clause_idx == cr_idx,
            final(watcher).blocker == (if r.0 is None && !r.1 {
                final(self).lits(cr_idx as int)[0]
            } else {
                old(watcher).blocker
            }),
    {
        let ghost o = *self;
        let ghost c = cr_idx as int;
        let false_lit = p.not();
        proof {
            assert(o.clause_ok(c));
        }
        let l0 = self.clauses[cr_idx].lits[0];
        if l0 == false_lit {
            let l1 = self.clauses[cr_idx].lits[1];
            self.clauses[cr_idx].lits[0] = l1;
            self.clauses[cr_idx].lits[1] = l0;
            proof {
                lemma_swap_same_lits(o.lits(c), 0, 1);
                assert(self.lits(c) =~= o.lits(c).update(0, o.lits(c)[1]).update(1, o.lits(c)[0]));
                assert(o.not_a_reason(c)) by {
                    assert forall|v: int| 0 <= v < o.n() implies #[trigger] o.reason@[v] != Some(c as usize) by {
                        if o.reason@[v] == Some(c as usize) {
                            assert(o.var_at(v));
                            assert(o.reason_ok(v, c));
                            assert(o.entry_at(o.pos@[v]));
                        }
                    }
                }
                assert(o.entries_fit(c, self.lits(c))) by {
                    assert forall|x: int, e: int|
                        0 <= x < o.watches@.len() && 0 <= e < o.watches@[x]@.len() && (
                        #[trigger] o.watches@[x]@[e]).clause_idx == c implies self.lits(c)[0].spec_not().code() == x
                        || self.lits(c)[1].spec_not().code() == x by {
                        assert(list_ok(o.clauses@, o.n(), x, o.watches@[x]@));
                        assert(entry_ok(o.clauses@, o.n(), x, o.watches@[x]@[e]));
                    }
                }
                self.lemma_reordered_wf(&o, c);
            }
        }
        let ghost m = *self;
        proof {
            assert(m.clause_ok(c));
            assert(m.lits(c)[1] == p.spec_not());
        }
        let first = self.clauses[cr_idx].lits[0];
        match Self::value_lit(&self.assignments, first) {
            VarValue::True => {
                watcher.blocker = first;
                return (None, false);
            },
            _ => {},
        }
        let len = self.clauses[cr_idx].lits.len();
        let mut k: usize = 2;
        while k < len
            invariant
                *self == m,
                o == *old(self),
                m.wf_core(),
                0 <= c < m.clauses@.len(),
                c == cr_idx,
                len == m.lits(c).len(),
                m.lits(c)[1] == p.spec_not(),
                m.lits(c)[0] == first,
                first == (if o.lits(c)[0] == p.spec_not() {
                    o.lits(c)[1]
                } else {
                    o.lits(c)[0]
                }),
                m.val(first) != VarValue::True,
                m.watches@[p.code()]@.len() == 0,
                m.watches == o.watches,
                p.spec_var() < m.n(),
                m.same_but_clause(&o, c),
                o.lims_strict() ==> m.lims_strict(),
                watcher.clause_idx == cr_idx,
                watcher.blocker == old(watcher).blocker,
                2 <= k <= len,
                forall|j: int| 2 <= j < k ==> m.val(#[trigger] m.lits(c)[j]) == VarValue::False,
            decreases len - k,
        {
            let lk = self.clauses[cr_idx].lits[k];
            proof {
                assert(m.clause_ok(c));
                assert(lk.spec_var() < m.n());
            }
            match Self::value_lit(&self.assignments, lk) {
                VarValue::False => {},
                _ => {
                    let l1 = self.clauses[cr_idx].lits[1];
                    self.clauses[cr_idx].lits[1] = lk;
                    self.clauses[cr_idx].lits[k] = l1;
                    let ghost m2 = *self;
                    proof {
                        lemma_swap_same_lits(m.lits(c), 1, k as int);
                        assert(m2.lits(c) =~= m.lits(c).update(1, m.lits(c)[k as int]).update(k as int, m.lits(c)[1]));
                        assert(m.entries_fit(c, m2.lits(c))) by {
                            assert forall|x: int, e: int|
                                0 <= x < m.watches@.len() && 0 <= e < m.watches@[x]@.len() && (
                                #[trigger] m.watches@[x]@[e]).clause_idx == c implies m2.lits(c)[0].spec_not().code()
                                == x || m2.lits(c)[1].spec_not().code() == x by {
                                assert(list_ok(m.clauses@, m.n(), x, m.watches@[x]@));
                                assert(entry_ok(m.clauses@, m.n(), x, m.watches@[x]@[e]));
                                if m.lits(c)[1].spec_not().code() == x {
                                    assert(x == p.code());
                                }
                            }
                        }
                        m2.lemma_reordered_wf(&m, c);
                    }
                    let idx = lk.not().to_usize();
                    let w = Watcher { clause_idx: cr_idx, blocker: first };
                    self.watches[idx].push(w);
                    proof {
                        assert(m2.lits(c).contains(first)) by {
                            assert(m2.lits(c)[0] == first);
                        }
                        assert(entry_ok(m2.clauses@, m2.n(), idx as int, w));
                        assert(!has_entry(m2.watches@[idx as int]@, c)) by {
                            if has_entry(m2.watches@[idx as int]@, c) {
                                let list = m.watches@[idx as int]@;
                                let e = choose|e: int| 0 <= e < list.len() && (#[trigger] list[e]).clause_idx == c;
                                assert(list_ok(m.clauses@, m.n(), idx as int, list));
                                assert(entry_ok(m.clauses@, m.n(), idx as int, list[e]));
                                if m.lits(c)[0].spec_not().code() == idx {
                                    lemma_not_injective(m.lits(c)[0], lk);
                                } else {
                                    lemma_not_injective(m.lits(c)[1], lk);
                                }
                                assert(false);
                            }
                        }
                        self.lemma_watch_pushed_wf(&m2, idx as int, w);
                        assert(same_lits(self.lits(c), o.lits(c))) by {
                            lemma_same_lits_trans(self.lits(c), m.lits(c), o.lits(c));
                        }
                        assert forall|d: int| 0 <= d < o.clauses@.len() && d != c implies #[trigger] self.clauses@[d]
                            == o.clauses@[d] by {
                            assert(m.clauses@[d] == o.clauses@[d]);
                        }
                    }
                    return (None, true);
                },
            }
            k = k + 1;
        }
        match Self::value_lit(&self.assignments, first) {
            VarValue::False => {
                proof {
                    assert forall|j: int| 0 <= j < m.lits(c).len() implies #[trigger] crate::lit::lit_value(
                        m.assignments@,
                        m.lits(c)[j],
                    ) == VarValue::False by {
                        if j >= 2 {
                            assert(m.val(m.lits(c)[j]) == VarValue::False);
                        }
                    }
                }
                (Some(Action::Conflict(cr_idx)), false)
            },
            _ => {
                proof {
                    assert forall|j: int| 1 <= j < m.lits(c).len() implies m.val(#[trigger] m.lits(c)[j])
                        == VarValue::False by {
                        if j >= 2 {
                            assert(m.val(m.lits(c)[j]) == VarValue::False);
                        }
                    }
                }
                (Some(Action::Enqueue(first, cr_idx)), false)
            },
        }
    }
}

/// Having the same literals is transitive.
pub(crate) proof fn lemma_same_lits_trans(a: Seq<Lit>, b: Seq<Lit>, c: Seq<Lit>)
    requires
        same_lits(a, b),
        same_lits(b, c),
    ensures
        same_lits(a, c),
{
    assert forall|k: int| 0 <= k < a.len() implies c.contains(#[trigger] a[k]) by {
        assert(b.contains(a[k]));
        let j = choose|j: int| 0 <= j < b.len() && b[j] == a[k];
        assert(c.contains(b[j]));
    }
    assert forall|k: int| 0 <= k < c.len() implies a.contains(#[trigger] c[k]) by {
        assert(b.contains(c[k]));
        let j = choose|j: int| 0 <= j < b.len() && b[j] == c[k];
        assert(a.contains(b[j]));
    }
}

impl Solver {
    /// Clause `c` is in conflict after `p` was taken from the queue: it has
    /// two or more literals, all False, and `!p` is its second.
    pub open(crate) spec fn in_conflict(&self, c: int, p: Lit) -> bool {
        &&& 0 <= c < self.clauses@.len()
        &&& self.lits(c).len() >= 2
        &&& clause_falsified(self.assignments@, self.lits(c))
        &&& self.lits(c)[1] == p.spec_not()
    }

    /// What holds while the detached watch list `ws` of `p` is scanned, with
    /// the entries before `i` visited and `j` of them kept.
    pub open(crate) spec fn scanning(
        &self,
        o: &Solver,
        p: Lit,
        ws: Seq<Watcher>,
        i: int,
        j: int,
        conflict: Option<usize>,
        guard: bool,
        strict: bool,
    ) -> bool {
        &&& self.wf_scan()
        &&& self.extends(o)
        &&& self.forced_since(o.trail@.len() as int)
        &&& o.q_head < self.q_head <= self.trail@.len()
        &&& p == self.trail@[self.q_head - 1]
        &&& self.dl() > 0 ==> self.trail_lim@[self.dl() - 1] <= self.q_head - 1
        &&& self.watches@[p.code()]@.len() == 0
        &&& detached_ok(self.clauses@, self.n(), p.code(), ws, i, j)
        &&& conflict is Some ==> self.in_conflict(conflict->0 as int, p)
        &&& self.scan_guards(p, ws, i, j, conflict is None, guard, strict, -1)
    }

    /// Every trail entry from position `from` on was forced: its variable
    /// has a reason and is of the current decision level.
    pub open(crate) spec fn forced_since(&self, from: int) -> bool {
        forall|i: int|
            from <= i < self.trail@.len() ==> self.reason@[(#[trigger] self.trail@[i]).spec_var()] is Some && self.lvl(
                self.trail@[i],
            ) == self.dl()
    }

    /// The trail entry at `i` has a reason: a stored clause that begins with
    /// the entry and whose other literals are False and stand, negated,
    /// earlier on the trail; and the entry is of the current decision level.
    pub open(crate) spec fn forced_at(&self, i: int) -> bool {
        let l = self.trail@[i];
        let r = self.reason@[l.spec_var()];
        &&& r is Some
        &&& 0 <= r->0 < self.clauses@.len()
        &&& self.lits(r->0 as int).len() >= 1
        &&& self.lits(r->0 as int)[0] == l
        &&& forall|k: int|
            1 <= k < self.lits(r->0 as int).len() ==> self.val(#[trigger] self.lits(r->0 as int)[k]) == VarValue::False
                && 0 <= self.at(self.lits(r->0 as int)[k]) < i && self.trail@[self.at(self.lits(r->0 as int)[k])]
                == self.lits(r->0 as int)[k].spec_not()
        &&& self.lvl(l) == self.dl()
    }

    /// Every trail entry from position `from` on has the reason that forced it.
    pub open(crate) spec fn reasoned_since(&self, from: int) -> bool {
        forall|i: int| from <= i < self.trail@.len() ==> #[trigger] self.forced_at(i)
    }

    /// In a sound state, entries that have a reason have the reason that
    /// forced them.
    pub(crate) proof fn lemma_reasoned(&self, from: int)
        requires
            self.wf_core(),
            0 <= from,
            self.forced_since(from),
        ensures
            self.reasoned_since(from),
    {
        assert forall|i: int| from <= i < self.trail@.len() implies #[trigger] self.forced_at(i) by {
            let l = self.trail@[i];
            let v = l.spec_var();
            assert(self.entry_at(i));
            assert(self.reason@[v] is Some);
            assert(self.var_at(v));
            let r = self.reason@[v]->0 as int;
            assert(self.reason_ok(v, r));
            assert(self.clause_ok(r));
            assert forall|k: int| 1 <= k < self.lits(r).len() implies self.val(#[trigger] self.lits(r)[k])
                == VarValue::False && 0 <= self.at(self.lits(r)[k]) < i && self.trail@[self.at(self.lits(r)[k])]
                == self.lits(r)[k].spec_not() by {
                self.lemma_false_on_trail(self.lits(r)[k]);
            }
        }
    }

    /// Clause `c` has a True literal, or its first two literals differ and
    /// are both unassigned: it is neither falsified nor does it force a
    /// literal.
    pub open(crate) spec fn clause_open(&self, c: int) -> bool {
        let ls = self.lits(c);
        ||| clause_satisfied(self.assignments@, ls)
        ||| self.val(ls[0]) == VarValue::Unassigned && self.val(ls[1]) == VarValue::Unassigned && ls[0] != ls[1]
    }

    /// No stored clause of two or more literals is falsified or forces a
    /// literal that is not assigned.
    pub open(crate) spec fn nothing_forced(&self) -> bool {
        forall|c: int| 0 <= c < self.clauses@.len() && self.lits(c).len() >= 2 ==> #[trigger] self.clause_open(c)
    }

    /// This state is `o` after propagation ended with `conflict`. The state
    /// continues `o`, and every literal that was appended to the trail was
    /// forced by its reason. If the queue was empty, nothing changed. Without
    /// a conflict the queue is empty, and each form of the two-watched-literal
    /// invariant holds if it held in `o`; under the strict form no clause is
    /// left that forces a literal. With a conflict the clause named has
    /// all its literals False and its second literal was assigned at the
    /// current decision level.
    pub open(crate) spec fn propagated(&self, o: &Solver, conflict: Option<usize>) -> bool {
        &&& self.extends(o)
        &&& self.reasoned_since(o.trail@.len() as int)
        &&& o.q_head == o.trail@.len() ==> conflict is None && *self == *o
        &&& match conflict {
            None => {
                &&& self.q_head == self.trail@.len()
                &&& o.guarded() ==> self.guarded()
                &&& o.strict() ==> self.strict() && self.nothing_forced()
            },
            Some(c) => {
                &&& 0 <= c < self.clauses@.len()
                &&& self.lits(c as int).len() >= 2
                &&& clause_falsified(self.assignments@, self.lits(c as int))
                &&& self.lvl(self.lits(c as int)[1]) == self.dl()
                &&& o.q_head < self.q_head
                &&& o.guarded() ==> self.guarded_at(self.q_head - 1)
                &&& o.strict() ==> self.strict_at(self.q_head - 1)
            },
        }
    }

    /// Boolean constraint propagation. Takes the literals of the trail from
    /// the queue head on; for each, visits the clauses that watch its
    /// negation, and enqueues what they force, until the queue is empty or a
    /// clause has all its literals False, whose index is then returned.
    pub(crate) fn propagate(&mut self) -> (conflict: Option<usize>)
        requires
            old(self).wf(),
        ensures
            final(self).wf(),
            final(self).propagated(old(self), conflict),
    {
        let ghost o = *self;
        let ghost guard = self.guarded();
        let ghost strict = self.strict();
        proof {
            self.lemma_extends_refl();
        }
        while self.q_head < self.trail.len()
            invariant
                o == *old(self),
                guard == o.guarded(),
                strict == o.strict(),
                self.wf(),
                self.extends(&o),
                self.forced_since(o.trail@.len() as int),
                o.q_head == o.trail@.len() ==> *self == o,
                guard ==> self.guarded(),
                strict ==> self.strict(),
            decreases self.n() - self.q_head,
        {
            let ghost b = *self;
            proof {
                self.lemma_trail_bounded();
                assert(self.entry_at(self.q_head as int));
            }
            let p = self.trail[self.q_head];
            self.q_head = self.q_head + 1;
            let falsified_lit_idx = p.to_usize();
            let mut watchers: Vec<Watcher> = Vec::new();
            core::mem::swap(&mut self.watches[falsified_lit_idx], &mut watchers);
            let mut conflict: Option<usize> = None;
            let mut i: usize = 0;
            let mut j: usize = 0;
            proof {
                assert(watchers@ == b.watches@[p.code()]@);
                assert forall|x: int| 0 <= x < self.watches@.len() implies list_ok(
                    self.clauses@,
                    self.n(),
                    x,
                    #[trigger] self.watches@[x]@,
                ) by {
                    if x != p.code() {
                        assert(self.watches@[x] == b.watches@[x]);
                    }
                    assert(list_ok(b.clauses@, b.n(), x, b.watches@[x]@));
                }
                self.lemma_requeued_wf(&b);
                self.lemma_requeued_extends(&b);
                self.lemma_extends_trans(&b, &o);
                assert(list_ok(b.clauses@, b.n(), p.code(), watchers@));
                self.lemma_scan_start(&b, p, guard, strict);
                assert(detached_ok(self.clauses@, self.n(), p.code(), watchers@, 0, 0));
            }
            while i < watchers.len()
                invariant
                    o == *old(self),
                    guard == o.guarded(),
                    strict == o.strict(),
                    falsified_lit_idx == p.code(),
                    self.q_head == b.q_head + 1,
                    self.n() == b.n(),
                    self.scanning(&o, p, watchers@, i as int, j as int, conflict, guard, strict),
                decreases watchers.len() - i,
            {
                let ghost b2 = *self;
                let ghost ws = watchers@;
                let mut watcher = watchers[i];
                let cr_idx = watcher.clause_idx;
                proof {
                    assert(crate::solver::guard::live(ws.len() as int, i as int, j as int, i as int));
                    assert(entry_ok(self.clauses@, self.n(), p.code(), ws[i as int]));
                    assert(self.entry_at(self.q_head - 1));
                    assert(self.val(p) == VarValue::True);
                }
                let skip = match conflict {
                    Some(_) => true,
                    None => match Self::value_lit(&self.assignments, watcher.blocker) {
                        VarValue::True => true,
                        _ => false,
                    },
                };
                if skip {
                    watchers[j] = watcher;
                    j = j + 1;
                    proof {
                        self.lemma_scan_copied(p, ws, i as int, j - 1, conflict is None, guard, strict);
                    }
                } else {
                    proof {
                        if self.lits(cr_idx as int)[0].spec_not().code() == p.code() {
                            lemma_neg_code(self.lits(cr_idx as int)[0], p);
                        } else {
                            lemma_neg_code(self.lits(cr_idx as int)[1], p);
                        }
                    }
                    let (action, stop_watching) = self.revise_watch(cr_idx, p, &mut watcher);
                    let ghost b3 = *self;
                    if !stop_watching {
                        watchers[j] = watcher;
                        j = j + 1;
                    }
                    proof {
                        b3.lemma_scan_revised(
                            &b2,
                            cr_idx as int,
                            p,
                            action,
                            stop_watching,
                            watcher,
                            ws,
                            i as int,
                            if stop_watching {
                                j as int
                            } else {
                                j - 1
                            },
                            guard,
                            strict,
                        );
                        b3.lemma_revised_extends(&b2, cr_idx as int, p, action, stop_watching);
                        b3.lemma_extends_trans(&b2, &o);
                        assert(b3.forced_since(o.trail@.len() as int)) by {
                            assert forall|k: int| o.trail@.len() <= k < b3.trail@.len() implies b3.reason@[(
                            #[trigger] b3.trail@[k]).spec_var()] is Some && b3.lvl(b3.trail@[k]) == b3.dl() by {
                                assert(b2.reason@[b2.trail@[k].spec_var()] is Some);
                            }
                        }
                    }
                    match action {
                        Some(Action::Conflict(idx)) => {
                            conflict = Some(idx);
                        },
                        Some(Action::Enqueue(lit, reason)) => {
                            proof {
                                assert(b3.clause_ok(cr_idx as int));
                            }
                            self.unchecked_enqueue(lit, Some(reason));
                            proof {
                                self.lemma_enqueued_extends(&b3, lit, reason as int);
                                self.lemma_extends_trans(&b3, &o);
                                self.lemma_scan_enqueued(
                                    &b3,
                                    lit,
                                    Some(reason),
                                    p,
                                    watchers@,
                                    i + 1,
                                    j as int,
                                    true,
                                    guard,
                                    strict,
                                    cr_idx as int,
                                );
                                assert(self.forced_since(o.trail@.len() as int)) by {
                                    assert forall|k: int| o.trail@.len() <= k < self.trail@.len() implies self.reason@[(
                                    #[trigger] self.trail@[k]).spec_var()] is Some && self.lvl(self.trail@[k])
                                        == self.dl() by {
                                        if k < b3.trail@.len() {
                                            assert(b3.reason@[b3.trail@[k].spec_var()] is Some);
                                            assert(b3.entry_at(k));
                                            assert(b3.trail@[k].spec_var() != lit.spec_var());
                                        }
                                    }
                                }
                            }
                        },
                        None => {},
                    }
                }
                i = i + 1;
            }
            let ghost b4 = *self;
            let ghost ws = watchers@;
            watchers.truncate(j);
            self.watches[falsified_lit_idx] = watchers;
            proof {
                self.lemma_reattached(&b4, p, ws, j as int, conflict is None, guard, strict);
                self.lemma_requeued_extends(&b4);
                self.lemma_extends_trans(&b4, &o);
                assert(self.forced_since(o.trail@.len() as int)) by {
                    assert forall|k: int| o.trail@.len() <= k < self.trail@.len() implies self.reason@[(
                    #[trigger] self.trail@[k]).spec_var()] is Some && self.lvl(self.trail@[k]) == self.dl() by {
                        assert(b4.reason@[b4.trail@[k].spec_var()] is Some);
                    }
                }
            }
            match conflict {
                Some(c) => {
                    proof {
                        self.lemma_top_level(self.q_head - 1);
                        self.lemma_reasoned(o.trail@.len() as int);
                    }
                    return Some(c);
                },
                None => {},
            }
        }
        proof {
            self.lemma_reasoned(o.trail@.len() as int);
            if o.strict() {
                assert forall|c: int| 0 <= c < self.clauses@.len() && self.lits(c).len() >= 2 implies #[trigger] self.clause_open(
                    c,
                ) by {
                    assert(self.clause_seq()[c] == self.lits(c));
                    self.false_watch_has_true_literal(c);
                }
            }
        }
        None
    }
}

} // verus!
