//! Facts about solver states that several operations share.

use vstd::prelude::*;
use vstd::relations::injective_on;
use vstd::set_lib::{lemma_int_range, lemma_len_subset, lemma_map_size, set_int_range};
use crate::lit::{distinct, lits_in_range, same_lits, Lit, VarValue};
use crate::solver::{entry_ok, has_entry, list_ok, Solver, Watcher};

verus! {

/// The literal whose negation has the code of `p` is the negation of `p`.
pub(crate) proof fn lemma_neg_code(l: Lit, p: Lit)
    requires
        l.spec_not().code() == p.code(),
    ensures
        l == p.spec_not(),
        l.spec_var() == p.spec_var(),
{
    crate::lit::lemma_not_code(l);
    crate::lit::lemma_not_code(p);
    assert(l.0 == p.spec_not().0);
}

impl Solver {
    /// A False literal's negation stands on the trail, at the position
    /// recorded for its variable.
    pub(crate) proof fn lemma_false_on_trail(&self, l: Lit)
        requires
            self.inv_sizes(),
            self.inv_trail(),
            l.spec_var() < self.n(),
            self.val(l) == VarValue::False,
        ensures
            0 <= self.at(l) < self.trail@.len(),
            self.trail@[self.at(l)] == l.spec_not(),
            self.entry_at(self.at(l)),
    {
        assert(self.var_at(l.spec_var()));
        assert(self.entry_at(self.at(l)));
    }

    /// A True literal stands on the trail, at the position recorded for its
    /// variable.
    pub(crate) proof fn lemma_true_on_trail(&self, l: Lit)
        requires
            self.inv_sizes(),
            self.inv_trail(),
            l.spec_var() < self.n(),
            self.val(l) == VarValue::True,
        ensures
            0 <= self.at(l) < self.trail@.len(),
            self.trail@[self.at(l)] == l,
            self.entry_at(self.at(l)),
    {
        assert(self.var_at(l.spec_var()));
        assert(self.entry_at(self.at(l)));
    }

    /// Levels do not decrease along the trail.
    pub(crate) proof fn lemma_levels_monotone(&self, i: int, j: int)
        requires
            self.inv_trail(),
            self.inv_lims(),
            0 <= i <= j < self.trail@.len(),
        ensures
            self.lvl(self.trail@[i]) <= self.lvl(self.trail@[j]),
    {
        assert(self.entry_at(i));
        assert(self.entry_at(j));
        let a = self.lvl(self.trail@[i]);
        let b = self.lvl(self.trail@[j]);
        if a > b {
            assert(self.trail_lim@[b] <= self.trail_lim@[a - 1]) by {
                if b < a - 1 {
                    assert(self.trail_lim@[b] < self.trail_lim@[a - 1]);
                }
            }
        }
    }

    /// A trail entry at or above the last level mark is at the current level.
    pub(crate) proof fn lemma_top_level(&self, i: int)
        requires
            self.inv_trail(),
            self.inv_lims(),
            0 <= i < self.trail@.len(),
            self.dl() > 0 ==> self.trail_lim@[self.dl() - 1] <= i,
        ensures
            self.lvl(self.trail@[i]) == self.dl(),
    {
        assert(self.entry_at(i));
        let a = self.lvl(self.trail@[i]);
        if a < self.dl() {
            assert(self.trail_lim@[a] <= self.trail_lim@[self.dl() - 1]) by {
                if a < self.dl() - 1 {
                    assert(self.trail_lim@[a] < self.trail_lim@[self.dl() - 1]);
                }
            }
        }
    }

    /// The trail holds each variable at most once, so it is no longer than
    /// the number of variables.
    pub(crate) proof fn lemma_trail_bounded(&self)
        requires
            self.inv_sizes(),
            self.inv_trail(),
        ensures
            self.trail@.len() <= self.n(),
    {
        let len = self.trail@.len() as int;
        let tr = self.trail@;
        let f = |i: int| tr[i].spec_var();
        let x = set_int_range(0, len);
        let y = x.map(f);
        lemma_int_range(0, len);
        lemma_int_range(0, self.n());
        assert(injective_on(f, x)) by {
            assert forall|a: int, b: int| x.contains(a) && x.contains(b) && #[trigger] f(a) == #[trigger] f(
                b,
            ) implies a == b by {
                assert(self.entry_at(a));
                assert(self.entry_at(b));
            }
        }
        lemma_map_size(x, y, f);
        assert(y.subset_of(set_int_range(0, self.n()))) by {
            assert forall|v: int| y.contains(v) implies set_int_range(0, self.n()).contains(v) by {
                let i = choose|i: int| x.contains(i) && f(i) == v;
                assert(self.entry_at(i));
            }
        }
        lemma_len_subset(y, set_int_range(0, self.n()));
    }

    /// Every decision level holds a literal, so there are no more levels than
    /// trail entries.
    pub(crate) proof fn lemma_level_count(&self, k: int)
        requires
            self.inv_lims(),
            0 <= k < self.dl(),
        ensures
            k <= self.trail_lim@[k],
        decreases k,
    {
        if k > 0 {
            self.lemma_level_count(k - 1);
            assert(self.trail_lim@[k - 1] < self.trail_lim@[k]);
        }
    }

    /// This state is `o` but for the order of the literals of clause `c`.
    pub open(crate) spec fn reordered(&self, o: &Solver, c: int) -> bool {
        &&& self.watches == o.watches
        &&& self.assignments == o.assignments
        &&& self.level == o.level
        &&& self.reason == o.reason
        &&& self.trail == o.trail
        &&& self.trail_lim == o.trail_lim
        &&& self.q_head == o.q_head
        &&& self.num_vars == o.num_vars
        &&& self.ok == o.ok
        &&& self.analyze_seen == o.analyze_seen
        &&& self.analyze_toclear == o.analyze_toclear
        &&& self.analyze_clause == o.analyze_clause
        &&& self.pos == o.pos
        &&& self.clauses@.len() == o.clauses@.len()
        &&& 0 <= c < o.clauses@.len()
        &&& forall|d: int| 0 <= d < o.clauses@.len() && d != c ==> #[trigger] self.clauses@[d] == o.clauses@[d]
        &&& self.clauses@[c].learned == o.clauses@[c].learned
        &&& same_lits(self.lits(c), o.lits(c))
        &&& distinct(self.lits(c))
        &&& lits_in_range(self.lits(c), self.n() as nat)
    }

    /// No variable has clause `c` as its reason.
    pub open(crate) spec fn not_a_reason(&self, c: int) -> bool {
        forall|v: int| 0 <= v < self.n() ==> #[trigger] self.reason@[v] != Some(c as usize)
    }

    /// Every watch-list entry for clause `c` sits in the list of the negation
    /// of one of the first two literals in `ls`.
    pub open(crate) spec fn entries_fit(&self, c: int, ls: Seq<Lit>) -> bool {
        forall|x: int, e: int|
            0 <= x < self.watches@.len() && 0 <= e < self.watches@[x]@.len() && (
            #[trigger] self.watches@[x]@[e]).clause_idx == c ==> ls[0].spec_not().code() == x
                || ls[1].spec_not().code() == x
    }

    /// Reordering a clause keeps the invariant if the first literal stays, or
    /// the clause is no reason, and the watch-list entries still fit.
    pub(crate) proof fn lemma_reordered_wf(&self, o: &Solver, c: int)
        requires
            o.wf_core(),
            self.reordered(o, c),
            self.lits(c).len() >= 1 ==> self.lits(c)[0] == o.lits(c)[0] || o.not_a_reason(c),
            o.entries_fit(c, self.lits(c)),
        ensures
            self.wf_core(),
            o.lims_strict() ==> self.lims_strict(),
    {
        assert(self.inv_sizes());
        assert forall|d: int| 0 <= d < self.clauses@.len() implies #[trigger] self.clause_ok(d) by {
            assert(o.clause_ok(d));
        }
        assert forall|i: int| 0 <= i < self.trail@.len() implies #[trigger] self.entry_at(i) by {
            assert(o.entry_at(i));
        }
        assert forall|v: int| 0 <= v < self.n() implies #[trigger] self.var_at(v) by {
            assert(o.var_at(v));
            if self.reason@[v] is Some {
                let d = self.reason@[v]->0 as int;
                assert(o.reason_ok(v, d));
                if d == c {
                    assert(self.lits(c)[0] == o.lits(c)[0]);
                    assert forall|k: int| 1 <= k < self.lits(d).len() implies self.val(#[trigger] self.lits(d)[k])
                        == VarValue::False && self.at(self.lits(d)[k]) < self.pos@[v] by {
                        let l = self.lits(c)[k];
                        assert(o.lits(c).contains(l));
                        let j = choose|j: int| 0 <= j < o.lits(c).len() && o.lits(c)[j] == l;
                        assert(self.lits(c)[0] != self.lits(c)[k]);
                        assert(j >= 1);
                        assert(o.val(o.lits(c)[j]) == VarValue::False);
                    }
                } else {
                    assert forall|k: int| 1 <= k < self.lits(d).len() implies self.val(#[trigger] self.lits(d)[k])
                        == VarValue::False && self.at(self.lits(d)[k]) < self.pos@[v] by {
                        assert(o.val(o.lits(d)[k]) == VarValue::False);
                    }
                }
            }
        }
        assert(self.inv_lims());
        assert forall|x: int| 0 <= x < self.watches@.len() implies list_ok(
            self.clauses@,
            self.n(),
            x,
            #[trigger] self.watches@[x]@,
        ) by {
            let list = self.watches@[x]@;
            assert(list_ok(o.clauses@, o.n(), x, list));
            assert forall|e: int| 0 <= e < list.len() implies entry_ok(self.clauses@, self.n(), x, #[trigger] list[e]) by {
                let w = list[e];
                assert(entry_ok(o.clauses@, o.n(), x, w));
                if w.clause_idx == c {
                    assert(o.lits(c).contains(w.blocker));
                    let j = choose|j: int| 0 <= j < o.lits(c).len() && o.lits(c)[j] == w.blocker;
                    assert(self.lits(c).contains(o.lits(c)[j]));
                } else {
                    assert(self.clauses@[w.clause_idx as int] == o.clauses@[w.clause_idx as int]);
                }
            }
        }
        if o.lims_strict() {
            assert forall|k: int| 0 <= k < self.trail_lim@.len() implies (#[trigger] self.trail_lim@[k])
                < self.trail@.len() by {
                assert(o.trail_lim@[k] < o.trail@.len());
            }
        }
    }

    /// This state is `o` with entry `w` appended to the watch list with code `y`.
    pub open(crate) spec fn watch_pushed(&self, o: &Solver, y: int, w: Watcher) -> bool {
        &&& self.clauses == o.clauses
        &&& self.assignments == o.assignments
        &&& self.level == o.level
        &&& self.reason == o.reason
        &&& self.trail == o.trail
        &&& self.trail_lim == o.trail_lim
        &&& self.q_head == o.q_head
        &&& self.num_vars == o.num_vars
        &&& self.ok == o.ok
        &&& self.analyze_seen == o.analyze_seen
        &&& self.analyze_toclear == o.analyze_toclear
        &&& self.analyze_clause == o.analyze_clause
        &&& self.pos == o.pos
        &&& self.watches@.len() == o.watches@.len()
        &&& 0 <= y < o.watches@.len()
        &&& forall|x: int| 0 <= x < o.watches@.len() && x != y ==> #[trigger] self.watches@[x] == o.watches@[x]
        &&& self.watches@[y]@ == o.watches@[y]@.push(w)
    }

    /// Appending a sound entry for a clause that the list does not hold yet
    /// keeps the invariant.
    pub(crate) proof fn lemma_watch_pushed_wf(&self, o: &Solver, y: int, w: Watcher)
        requires
            o.wf_core(),
            self.watch_pushed(o, y, w),
            entry_ok(o.clauses@, o.n(), y, w),
            !has_entry(o.watches@[y]@, w.clause_idx as int),
        ensures
            self.wf_core(),
            o.lims_strict() ==> self.lims_strict(),
    {
        assert(self.inv_sizes());
        assert forall|d: int| 0 <= d < self.clauses@.len() implies #[trigger] self.clause_ok(d) by {
            assert(o.clause_ok(d));
        }
        assert forall|i: int| 0 <= i < self.trail@.len() implies #[trigger] self.entry_at(i) by {
            assert(o.entry_at(i));
        }
        assert forall|v: int| 0 <= v < self.n() implies #[trigger] self.var_at(v) by {
            assert(o.var_at(v));
            if self.reason@[v] is Some {
                let d = self.reason@[v]->0 as int;
                assert(o.reason_ok(v, d));
                assert forall|k: int| 1 <= k < self.lits(d).len() implies self.val(#[trigger] self.lits(d)[k])
                    == VarValue::False && self.at(self.lits(d)[k]) < self.pos@[v] by {
                    assert(o.val(o.lits(d)[k]) == VarValue::False);
                }
            }
        }
        assert(self.inv_lims());
        assert forall|x: int| 0 <= x < self.watches@.len() implies list_ok(
            self.clauses@,
            self.n(),
            x,
            #[trigger] self.watches@[x]@,
        ) by {
            assert(list_ok(o.clauses@, o.n(), x, o.watches@[x]@));
            if x == y {
                let old_list = o.watches@[y]@;
                let list = self.watches@[y]@;
                assert forall|e: int| 0 <= e < list.len() implies entry_ok(
                    self.clauses@,
                    self.n(),
                    x,
                    #[trigger] list[e],
                ) by {
                    if e < old_list.len() {
                        assert(list[e] == old_list[e]);
                    }
                }
                assert forall|e1: int, e2: int| 0 <= e1 < e2 < list.len() implies (#[trigger] list[e1]).clause_idx != (
                #[trigger] list[e2]).clause_idx by {
                    assert(list[e1] == old_list[e1]);
                    if e2 < old_list.len() {
                        assert(list[e2] == old_list[e2]);
                    } else {
                        assert(list[e2] == w);
                    }
                }
            }
        }
        if o.lims_strict() {
            assert forall|k: int| 0 <= k < self.trail_lim@.len() implies (#[trigger] self.trail_lim@[k])
                < self.trail@.len() by {
                assert(o.trail_lim@[k] < o.trail@.len());
            }
        }
    }
}

} // verus!
