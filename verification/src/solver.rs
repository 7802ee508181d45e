//! The solver: its state, the invariant that every operation keeps, what
//! it means for an assignment to be a model of its formula, construction,
//! and the assignment of a literal.

use vstd::prelude::*;

mod analyze;
mod backtrack;
mod clauses;
mod extend;
mod facts;
mod guard;
mod lemmas;
mod progress;
mod propagate;
mod search;
mod settle;
mod simplify;

use crate::lit::{
    clause_holds, clause_satisfied, distinct, lit_holds, lit_value, lits_in_range,
    value_making_true, Clause, Lit, VarValue, MAX_VARS,
};

verus! {

/// A reference from a literal's watch list to a clause that watches the
/// literal's negation. When the blocker is True the clause is satisfied and
/// its body need not be read.
#[derive(Debug, Copy, Clone)]
pub(crate) struct Watcher {
    pub(crate) clause_idx: usize,
    pub(crate) blocker: Lit,
}

/// A conflict-driven clause-learning solver for one formula.
///
/// The formula is what `models` speaks of: the stored clauses together with
/// the literals assigned at the root. Clauses are added with `add_clause`;
/// `solve` decides the formula.
pub struct Solver {
    /// The stored clauses, given and learned. A clause keeps its index; the
    /// order of its literals changes as watches move.
    pub clauses: Vec<Clause>,
    /// Per literal `p`: the clauses that watch `!p`.
    pub(crate) watches: Vec<Vec<Watcher>>,
    /// The value of each variable.
    pub assignments: Vec<VarValue>,
    /// The decision level at which each variable was assigned.
    pub(crate) level: Vec<usize>,
    /// The clause that forced each variable's value, if one did.
    pub(crate) reason: Vec<Option<usize>>,
    /// The assigned literals, in the order of their assignment.
    pub(crate) trail: Vec<Lit>,
    /// For each decision level, the trail position at which it began.
    pub(crate) trail_lim: Vec<usize>,
    /// The trail position from which on literals wait to be propagated.
    pub(crate) q_head: usize,
    pub(crate) num_vars: usize,
    /// Scratch space of conflict analysis: the marks, the marked variables,
    /// and the clause under construction.
    pub(crate) analyze_seen: Vec<bool>,
    pub(crate) analyze_toclear: Vec<usize>,
    pub(crate) analyze_clause: Vec<Lit>,
    /// Cleared once a contradiction at the root has been found.
    pub(crate) ok: bool,
    /// For each assigned variable, its position in the trail.
    pub(crate) pos: Ghost<Seq<int>>,
}

/// Entry `w` of the watch list of the literal with code `x` is sound: it
/// names a clause of at least two literals, one of whose first two is the
/// negation of that literal, and its blocker is a literal of that clause.
pub(crate) open spec fn entry_ok(cls: Seq<Clause>, n: int, x: int, w: Watcher) -> bool {
    &&& w.clause_idx < cls.len()
    &&& cls[w.clause_idx as int].lits@.len() >= 2
    &&& (cls[w.clause_idx as int].lits@[0].spec_not().code() == x
        || cls[w.clause_idx as int].lits@[1].spec_not().code() == x)
    &&& w.blocker.spec_var() < n
    &&& cls[w.clause_idx as int].lits@.contains(w.blocker)
}

/// Every entry of the list of the literal with code `x` is sound, and no
/// clause has two entries in it.
pub(crate) open spec fn list_ok(cls: Seq<Clause>, n: int, x: int, list: Seq<Watcher>) -> bool {
    &&& forall|e: int| 0 <= e < list.len() ==> entry_ok(cls, n, x, #[trigger] list[e])
    &&& forall|e1: int, e2: int|
        0 <= e1 < e2 < list.len() ==> (#[trigger] list[e1]).clause_idx != (#[trigger] list[e2]).clause_idx
}

/// Entry `w` of the watch list of the literal with code `x` is as it was
/// written for its clause as the clause stands: its blocker is the other of
/// the first two literals.
pub(crate) open spec fn entry_fresh(cls: Seq<Clause>, x: int, w: Watcher) -> bool {
    let ls = cls[w.clause_idx as int].lits@;
    (ls[0].spec_not().code() == x && w.blocker == ls[1]) || (ls[1].spec_not().code() == x && w.blocker == ls[0])
}

/// The list has an entry for clause `c`.
pub(crate) open spec fn has_entry(list: Seq<Watcher>, c: int) -> bool {
    exists|e: int| 0 <= e < list.len() && (#[trigger] list[e]).clause_idx == c
}

impl Solver {
    pub open(crate) spec fn n(&self) -> int {
        self.num_vars as int
    }

    /// The literals of clause `c`.
    pub open(crate) spec fn lits(&self, c: int) -> Seq<Lit> {
        self.clauses@[c].lits@
    }

    /// The value of a literal under the current assignment.
    pub open(crate) spec fn val(&self, l: Lit) -> VarValue {
        lit_value(self.assignments@, l)
    }

    /// The decision level at which the literal's variable was assigned.
    pub open(crate) spec fn lvl(&self, l: Lit) -> int {
        self.level@[l.spec_var()] as int
    }

    /// The trail position of the literal's variable.
    pub open(crate) spec fn at(&self, l: Lit) -> int {
        self.pos@[l.spec_var()]
    }

    /// The current decision level.
    pub open(crate) spec fn dl(&self) -> int {
        self.trail_lim@.len() as int
    }

    /// Where the root level ends in the trail.
    pub open(crate) spec fn root_end(&self) -> int {
        if self.trail_lim@.len() == 0 {
            self.trail@.len() as int
        } else {
            self.trail_lim@[0] as int
        }
    }

    pub open(crate) spec fn inv_sizes(&self) -> bool {
        &&& self.num_vars <= MAX_VARS
        &&& self.assignments@.len() == self.n()
        &&& self.level@.len() == self.n()
        &&& self.reason@.len() == self.n()
        &&& self.analyze_seen@.len() == self.n()
        &&& self.pos@.len() == self.n()
        &&& self.watches@.len() == 2 * self.n()
        &&& self.q_head <= self.trail@.len()
        &&& forall|i: int| 0 <= i < self.analyze_toclear@.len() ==> (#[trigger] self.analyze_toclear@[i]) < self.n()
        &&& forall|v: int| 0 <= v < self.n() && #[trigger] self.analyze_seen@[v] ==> self.analyze_toclear@.contains(v as usize)
    }

    /// Clause `c` names variables in range and holds no literal twice.
    pub open(crate) spec fn clause_ok(&self, c: int) -> bool {
        &&& lits_in_range(self.lits(c), self.n() as nat)
        &&& distinct(self.lits(c))
    }

    pub open(crate) spec fn inv_clauses(&self) -> bool {
        forall|c: int| 0 <= c < self.clauses@.len() ==> #[trigger] self.clause_ok(c)
    }

    /// Trail entry `i` agrees with the assignment, with the position table
    /// and with the decision-level marks.
    pub open(crate) spec fn entry_at(&self, i: int) -> bool {
        let l = self.trail@[i];
        let lv = self.lvl(l);
        &&& l.spec_var() < self.n()
        &&& self.at(l) == i
        &&& self.assignments@[l.spec_var()] == value_making_true(l)
        &&& lv <= self.dl()
        &&& (lv > 0 ==> self.trail_lim@[lv - 1] <= i)
        &&& (lv < self.dl() ==> i < self.trail_lim@[lv])
    }

    /// Clause `c` forced the literal of variable `v`: that literal comes first
    /// in it, and every other literal of it is False and was assigned earlier.
    pub open(crate) spec fn reason_ok(&self, v: int, c: int) -> bool {
        &&& 0 <= c < self.clauses@.len()
        &&& self.lits(c).len() >= 1
        &&& self.lits(c)[0] == self.trail@[self.pos@[v]]
        &&& forall|k: int|
            1 <= k < self.lits(c).len() ==> self.val(#[trigger] self.lits(c)[k]) == VarValue::False
                && self.at(self.lits(c)[k]) < self.pos@[v]
    }

    /// An assigned variable is on the trail with a sound reason, or without
    /// one at the root or as the first literal of its level (a decision); an
    /// unassigned one has level 0 and no reason.
    pub open(crate) spec fn var_at(&self, v: int) -> bool {
        &&& self.assignments@[v] != VarValue::Unassigned ==> 0 <= self.pos@[v] < self.trail@.len()
            && self.trail@[self.pos@[v]].spec_var() == v
        &&& self.assignments@[v] == VarValue::Unassigned ==> self.level@[v] == 0 && self.reason@[v] is None
        &&& self.reason@[v] is Some ==> self.reason_ok(v, self.reason@[v]->0 as int)
        &&& self.assignments@[v] != VarValue::Unassigned && self.reason@[v] is None && self.level@[v] > 0
            ==> self.pos@[v] == self.trail_lim@[self.level@[v] - 1]
    }

    pub open(crate) spec fn inv_trail(&self) -> bool {
        &&& forall|i: int| 0 <= i < self.trail@.len() ==> #[trigger] self.entry_at(i)
        &&& forall|v: int| 0 <= v < self.n() ==> #[trigger] self.var_at(v)
    }

    /// The level marks increase strictly, lie within the trail, and nothing
    /// below the last of them waits in the queue.
    pub open(crate) spec fn inv_lims(&self) -> bool {
        &&& forall|j: int, k: int|
            0 <= j < k < self.trail_lim@.len() ==> (#[trigger] self.trail_lim@[j]) < (#[trigger] self.trail_lim@[k])
        &&& forall|k: int| 0 <= k < self.trail_lim@.len() ==> (#[trigger] self.trail_lim@[k]) <= self.trail@.len()
        &&& self.dl() > 0 ==> self.trail_lim@[self.dl() - 1] <= self.q_head
    }

    /// Every decision level holds at least one literal.
    pub open(crate) spec fn lims_strict(&self) -> bool {
        forall|k: int| 0 <= k < self.trail_lim@.len() ==> (#[trigger] self.trail_lim@[k]) < self.trail@.len()
    }

    pub open(crate) spec fn inv_watches(&self) -> bool {
        forall|x: int|
            0 <= x < self.watches@.len() ==> list_ok(self.clauses@, self.n(), x, #[trigger] self.watches@[x]@)
    }

    /// The invariant that holds also while a decision level is being opened.
    pub open(crate) spec fn wf_core(&self) -> bool {
        &&& self.inv_sizes()
        &&& self.inv_clauses()
        &&& self.inv_trail()
        &&& self.inv_lims()
        &&& self.inv_watches()
    }

    /// The invariant but for the watch lists holding every clause, which
    /// fails while a list is detached.
    pub open(crate) spec fn wf_scan(&self) -> bool {
        &&& self.wf_core()
        &&& self.lims_strict()
    }

    /// The solver's invariant.
    pub open(crate) spec fn wf(&self) -> bool {
        &&& self.wf_core()
        &&& self.lims_strict()
        &&& self.all_watched()
    }

    /// Whether no contradiction at the root has been found so far.
    pub open(crate) spec fn spec_ok(&self) -> bool {
        self.ok
    }

    /// The current partial assignment, per variable.
    pub open(crate) spec fn assignment(&self) -> Seq<VarValue> {
        self.assignments@
    }

    /// The literals of each stored clause, in their current order.
    pub open(crate) spec fn clause_seq(&self) -> Seq<Seq<Lit>> {
        Seq::new(self.clauses@.len(), |c: int| self.clauses@[c].lits@)
    }

    /// The number of variables the solver was made for.
    pub open(crate) spec fn spec_num_vars(&self) -> nat {
        self.num_vars as nat
    }

    /// The current decision level: the number of decisions on the trail.
    pub open(crate) spec fn spec_decision_level(&self) -> nat {
        self.trail_lim@.len()
    }

    /// `m` is a model of the solver's formula: the solver has found no
    /// contradiction, and `m` makes every stored clause and every literal
    /// assigned at the root hold.
    pub open(crate) spec fn models(&self, m: Seq<bool>) -> bool {
        &&& self.ok
        &&& m.len() == self.n()
        &&& forall|c: int| 0 <= c < self.clauses@.len() ==> clause_holds(m, #[trigger] self.lits(c))
        &&& forall|i: int| 0 <= i < self.root_end() ==> lit_holds(m, #[trigger] self.trail@[i])
    }

    /// Clause `c` is guarded when everything before trail position `q` has
    /// been propagated. With two or more literals: one of the two watched
    /// literals is not False or still waits in the queue, or some literal of
    /// the clause is True and was assigned no later than a watched literal.
    /// With one literal: it is True at the root. An empty clause is never
    /// guarded.
    pub open(crate) spec fn clause_guarded(&self, c: int, q: int) -> bool {
        let ls = self.lits(c);
        if ls.len() >= 2 {
            ||| self.val(ls[0]) != VarValue::False
            ||| self.val(ls[1]) != VarValue::False
            ||| self.at(ls[0]) >= q
            ||| self.at(ls[1]) >= q
            ||| exists|j: int|
                0 <= j < ls.len() && self.val(#[trigger] ls[j]) == VarValue::True && (self.lvl(ls[j])
                    <= self.lvl(ls[0]) || self.lvl(ls[j]) <= self.lvl(ls[1]))
        } else {
            ls.len() == 1 && self.val(ls[0]) == VarValue::True && self.lvl(ls[0]) == 0
        }
    }

    /// Clause `c` has an entry in the watch list of each of its first two literals.
    pub open(crate) spec fn clause_watched(&self, c: int) -> bool {
        let ls = self.lits(c);
        ls.len() >= 2 ==> has_entry(self.watches@[ls[0].spec_not().code()]@, c) && has_entry(
            self.watches@[ls[1].spec_not().code()]@,
            c,
        )
    }

    /// Every clause of two or more literals has an entry in the watch lists
    /// of the negations of its first two literals.
    pub open(crate) spec fn all_watched(&self) -> bool {
        forall|c: int| 0 <= c < self.clauses@.len() ==> #[trigger] self.clause_watched(c)
    }

    /// The two-watched-literal invariant in the form that the search keeps,
    /// relative to queue position `q`: every clause is guarded.
    pub open(crate) spec fn guarded_at(&self, q: int) -> bool {
        forall|c: int| 0 <= c < self.clauses@.len() ==> #[trigger] self.clause_guarded(c, q)
    }

    /// The two-watched-literal invariant in the form that the search keeps,
    /// with respect to what the queue has handed out.
    pub open(crate) spec fn guarded(&self) -> bool {
        self.guarded_at(self.q_head as int)
    }

    /// Each of the first two literals of clause `c` that is False was
    /// assigned at trail position `q` or later, or the clause has a True
    /// literal.
    pub open(crate) spec fn clause_strict(&self, c: int, q: int) -> bool {
        let ls = self.lits(c);
        ls.len() >= 2 ==> {
            &&& self.val(ls[0]) == VarValue::False ==> self.at(ls[0]) >= q || clause_satisfied(self.assignments@, ls)
            &&& self.val(ls[1]) == VarValue::False ==> self.at(ls[1]) >= q || clause_satisfied(self.assignments@, ls)
        }
    }

    /// The two-watched-literal invariant in its strict form, relative to
    /// queue position `q`: a False watched literal still waits in the queue,
    /// or its clause has a True literal.
    pub open(crate) spec fn strict_at(&self, q: int) -> bool {
        forall|c: int| 0 <= c < self.clauses@.len() ==> #[trigger] self.clause_strict(c, q)
    }

    /// The strict two-watched-literal invariant with respect to what the
    /// queue has handed out. Propagation keeps it; backtracking past a
    /// learned clause may not.
    pub open(crate) spec fn strict(&self) -> bool {
        self.strict_at(self.q_head as int)
    }

    /// Clause `c` forces `lit`: `lit` comes first in it and every other
    /// literal of it is False.
    pub open(crate) spec fn forces(&self, c: int, lit: Lit) -> bool {
        &&& 0 <= c < self.clauses@.len()
        &&& self.lits(c).len() >= 1
        &&& self.lits(c)[0] == lit
        &&& forall|k: int| 1 <= k < self.lits(c).len() ==> self.val(#[trigger] self.lits(c)[k]) == VarValue::False
    }

    /// A literal may be enqueued without a reason: at the root, or as the
    /// first literal of a level that has just been opened.
    pub open(crate) spec fn may_decide(&self) -> bool {
        self.dl() == 0 || self.trail_lim@[self.dl() - 1] == self.trail@.len()
    }

    /// Clauses, watch lists, level marks, queue head and scratch space are
    /// those of `o`.
    pub open(crate) spec fn same_db(&self, o: &Solver) -> bool {
        &&& self.clauses == o.clauses
        &&& self.watches == o.watches
        &&& self.trail_lim == o.trail_lim
        &&& self.q_head == o.q_head
        &&& self.num_vars == o.num_vars
        &&& self.ok == o.ok
        &&& self.analyze_seen == o.analyze_seen
        &&& self.analyze_toclear == o.analyze_toclear
        &&& self.analyze_clause == o.analyze_clause
    }

    /// This state is `o` after enqueueing `lit` with `reason`: unchanged if
    /// the variable of `lit` was assigned, else `lit` is made true at the
    /// current level and appended to the trail.
    pub open(crate) spec fn enqueued(&self, o: &Solver, lit: Lit, reason: Option<usize>) -> bool {
        let v = lit.spec_var();
        if o.val(lit) != VarValue::Unassigned {
            *self == *o
        } else {
            &&& self.same_db(o)
            &&& self.trail@ == o.trail@.push(lit)
            &&& self.assignments@ == o.assignments@.update(v, value_making_true(lit))
            &&& self.level@ == o.level@.update(v, o.trail_lim.len())
            &&& self.reason@ == o.reason@.update(v, reason)
            &&& self.pos@ == o.pos@.update(v, o.trail@.len() as int)
        }
    }

    /// No variable is twice on the trail, and a variable is on the trail
    /// exactly if it is assigned.
    pub open(crate) spec fn trail_distinct(&self) -> bool {
        &&& forall|i: int, j: int|
            0 <= i < j < self.trail@.len() ==> (#[trigger] self.trail@[i]).spec_var() != (#[trigger] self.trail@[j]).spec_var()
        &&& forall|v: int|
            0 <= v < self.n() ==> (#[trigger] self.assignments@[v] != VarValue::Unassigned <==> exists|i: int|
                0 <= i < self.trail@.len() && (#[trigger] self.trail@[i]).spec_var() == v)
    }

    /// `lit` may be enqueued with `reason` in a sound state: the reason is
    /// a clause that forces it; or there is none, at the root or as the
    /// first literal of a level.
    pub open(crate) spec fn may_enqueue(&self, lit: Lit, reason: Option<usize>) -> bool {
        &&& self.wf_core()
        &&& reason is Some ==> self.forces(reason->0 as int, lit)
        &&& reason is None ==> self.may_decide()
    }

    /// The formula of the solver has no model.
    pub open(crate) spec fn unsat(&self) -> bool {
        forall|m: Seq<bool>| !self.models(m)
    }
}

impl Solver {
    /// A solver for `num_vars` variables with no clause and nothing assigned.
    pub fn new(num_vars: usize) -> (s: Solver)
        requires
            num_vars < MAX_VARS,
        ensures
            s.wf(),
            s.guarded(),
            s.strict(),
            s.spec_ok(),
            s.spec_num_vars() == num_vars,
            s.spec_decision_level() == 0,
            s.clause_seq().len() == 0,
            s.stored().len() == 0,
            s.trail_seq().len() == 0,
            s.assignment() == Seq::new(num_vars as nat, |v: int| VarValue::Unassigned),
            forall|m: Seq<bool>| m.len() == num_vars ==> s.models(m),
    {
        let mut watches: Vec<Vec<Watcher>> = Vec::new();
        let mut i: usize = 0;
        while i < num_vars * 2
            invariant
                num_vars < MAX_VARS,
                i <= num_vars * 2,
                watches@.len() == i,
                forall|x: int| 0 <= x < i ==> (#[trigger] watches@[x])@.len() == 0,
            decreases num_vars * 2 - i,
        {
            watches.push(Vec::new());
            i = i + 1;
        }
        let s = Solver {
            clauses: Vec::new(),
            watches,
            assignments: vec![VarValue::Unassigned; num_vars],
            level: vec![0; num_vars],
            reason: vec![None; num_vars],
            trail: Vec::with_capacity(num_vars),
            trail_lim: Vec::new(),
            q_head: 0,
            num_vars,
            analyze_seen: vec![false; num_vars],
            analyze_toclear: Vec::with_capacity(num_vars),
            analyze_clause: Vec::with_capacity(num_vars),
            ok: true,
            pos: Ghost(Seq::new(num_vars as nat, |v: int| 0int)),
        };
        proof {
            assert(s.assignments@ =~= Seq::new(num_vars as nat, |v: int| VarValue::Unassigned));
            assert forall|v: int| 0 <= v < s.n() implies #[trigger] s.var_at(v) by {}
            assert(s.inv_watches());
        }
        s
    }

    #[inline(always)]
    pub(crate) fn decision_level(&self) -> (d: usize)
        ensures
            d == self.dl(),
    {
        self.trail_lim.len()
    }

    /// The value of a literal under an assignment.
    #[inline(always)]
    pub(crate) fn value_lit(assignments: &Vec<VarValue>, lit: Lit) -> (r: VarValue)
        requires
            lit.spec_var() < assignments@.len(),
        ensures
            r == lit_value(assignments@, lit),
    {
        let v = assignments[lit.var()];
        match v {
            VarValue::Unassigned => VarValue::Unassigned,
            VarValue::True => if lit.is_neg() { VarValue::False } else { VarValue::True },
            VarValue::False => if lit.is_neg() { VarValue::True } else { VarValue::False },
        }
    }
}

impl Solver {
    /// Assigns a literal and appends it to the trail. Does nothing if the
    /// variable of the literal is already assigned. The trail keeps its
    /// variables apart; the whole invariant is kept if the reason is one.
    #[inline(always)]
    pub(crate) fn unchecked_enqueue(&mut self, lit: Lit, reason: Option<usize>)
        requires
            lit.spec_var() < old(self).n(),
            old(self).assignments@.len() == old(self).n(),
            old(self).level@.len() == old(self).n(),
            old(self).reason@.len() == old(self).n(),
        ensures
            final(self).enqueued(old(self), lit, reason),
            old(self).trail_distinct() ==> final(self).trail_distinct(),
            old(self).may_enqueue(lit, reason) ==> final(self).wf_core(),
            old(self).may_enqueue(lit, reason) && old(self).val(lit) == VarValue::Unassigned ==> final(self).lims_strict(),
            old(self).may_enqueue(lit, reason) && old(self).lims_strict() ==> final(self).lims_strict(),
            old(self).all_watched() ==> final(self).all_watched(),
    {
        let var = lit.var();
        match self.assignments[var] {
            VarValue::Unassigned => {},
            _ => {
                return ;
            },
        }
        let ghost o = *self;
        self.assignments[var] = if lit.is_neg() { VarValue::False } else { VarValue::True };
        self.level[var] = self.decision_level();
        self.reason[var] = reason;
        self.pos = Ghost(self.pos@.update(var as int, self.trail@.len() as int));
        self.trail.push(lit);
        proof {
            if o.may_enqueue(lit, reason) {
                lemma_enqueue_wf(&o, self, lit, reason);
            }
            if o.trail_distinct() {
                let top = o.trail@.len() as int;
                assert(o.assignments@[var as int] == VarValue::Unassigned);
                assert forall|i: int, j: int| 0 <= i < j < self.trail@.len() implies (#[trigger] self.trail@[i]).spec_var()
                    != (#[trigger] self.trail@[j]).spec_var() by {
                    assert(self.trail@[i] == o.trail@[i]);
                    if j < top {
                        assert(self.trail@[j] == o.trail@[j]);
                    } else {
                        if o.trail@[i].spec_var() == var {
                            assert(0 <= i < o.trail@.len() && o.trail@[i].spec_var() == var);
                        }
                    }
                }
                assert forall|v: int| 0 <= v < self.n() implies (#[trigger] self.assignments@[v] != VarValue::Unassigned
                    <==> exists|i: int| 0 <= i < self.trail@.len() && (#[trigger] self.trail@[i]).spec_var() == v) by {
                    if v == var {
                        assert(self.trail@[top].spec_var() == v);
                    } else {
                        assert(self.assignments@[v] == o.assignments@[v]);
                        if exists|i: int| 0 <= i < o.trail@.len() && (#[trigger] o.trail@[i]).spec_var() == v {
                            let i = choose|i: int| 0 <= i < o.trail@.len() && (#[trigger] o.trail@[i]).spec_var() == v;
                            assert(self.trail@[i] == o.trail@[i]);
                        }
                        if exists|i: int| 0 <= i < self.trail@.len() && (#[trigger] self.trail@[i]).spec_var() == v {
                            let i = choose|i: int| 0 <= i < self.trail@.len() && (#[trigger] self.trail@[i]).spec_var() == v;
                            assert(i < top);
                            assert(self.trail@[i] == o.trail@[i]);
                        }
                    }
                }
            }
            if o.all_watched() {
                assert forall|c: int| 0 <= c < self.clauses@.len() implies #[trigger] self.clause_watched(c) by {
                    assert(o.clause_watched(c));
                }
            }
        }
    }
}

/// Enqueueing an unassigned literal keeps the invariant.
pub(crate) proof fn lemma_enqueue_wf(o: &Solver, s: &Solver, lit: Lit, reason: Option<usize>)
    requires
        o.wf_core(),
        lit.spec_var() < o.n(),
        reason is Some ==> o.forces(reason->0 as int, lit),
        reason is None ==> o.may_decide(),
        o.val(lit) == VarValue::Unassigned,
        s.enqueued(o, lit, reason),
    ensures
        s.wf_core(),
        s.lims_strict(),
{
    let v = lit.spec_var();
    let top = o.trail@.len() as int;
    assert(s.inv_sizes());
    assert forall|c: int| 0 <= c < s.clauses@.len() implies #[trigger] s.clause_ok(c) by {
        assert(o.clause_ok(c));
    }
    assert forall|i: int| 0 <= i < s.trail@.len() implies #[trigger] s.entry_at(i) by {
        if i < top {
            assert(o.entry_at(i));
            assert(s.trail@[i] == o.trail@[i]);
            assert(o.assignments@[v] == VarValue::Unassigned);
            assert(o.trail@[i].spec_var() != v);
        } else {
            assert(s.trail@[i] == lit);
            if o.dl() > 0 {
                assert(o.trail_lim@[o.dl() - 1] <= top);
            }
        }
    }
    assert forall|u: int| 0 <= u < s.n() implies #[trigger] s.var_at(u) by {
        assert(o.var_at(u));
        if u == v {
            if reason is Some {
                let c = reason->0 as int;
                assert(o.clause_ok(c));
                assert forall|k: int| 1 <= k < s.lits(c).len() implies s.val(#[trigger] s.lits(c)[k])
                    == VarValue::False && s.at(s.lits(c)[k]) < s.pos@[u] by {
                    let l = o.lits(c)[k];
                    assert(o.val(l) == VarValue::False);
                    assert(l.spec_var() < o.n());
                    assert(o.var_at(l.spec_var()));
                }
            }
        } else {
            if s.reason@[u] is Some {
                let c = s.reason@[u]->0 as int;
                assert(o.reason_ok(u, c));
                assert(o.clause_ok(c));
                assert forall|k: int| 1 <= k < s.lits(c).len() implies s.val(#[trigger] s.lits(c)[k])
                    == VarValue::False && s.at(s.lits(c)[k]) < s.pos@[u] by {
                    let l = o.lits(c)[k];
                    assert(o.val(l) == VarValue::False);
                }
            }
        }
    }
    assert(s.inv_lims());
    assert(s.inv_watches());
    assert forall|k: int| 0 <= k < s.trail_lim@.len() implies (#[trigger] s.trail_lim@[k]) < s.trail@.len() by {
        assert(o.trail_lim@[k] <= o.trail@.len());
    }
}

} // verus!
