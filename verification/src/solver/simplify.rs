//! Running the preprocessor on the clause store and taking over what it
//! returns, and the whole solve: simplify, then search.

use vstd::prelude::*;
use crate::lit::{
    clause_holds, clause_satisfied, distinct, lit_holds, lit_value, lits_in_range, model_of, Clause, Lit, VarValue,
    MAX_VARS,
};
use crate::preprocessing::extract::all_hold;
use crate::preprocessing::subst::lemma_make_parts;
use crate::preprocessing::{clause_data, is_model, links_hold, links_ok, preprocess, preprocessed, units_hold};
use crate::solver::Solver;
use crate::strategy::BranchingStrategy;

verus! {

/// The assignment, the trail and the flag after `l` was asserted at the
/// root: nothing changes if the flag is cleared or `l` is True; the flag is
/// cleared if `l` is False; else `l` is made true and put on the trail.
pub open spec fn asserted(s: (Seq<VarValue>, Seq<Lit>, bool), l: Lit) -> (Seq<VarValue>, Seq<Lit>, bool) {
    if !s.2 {
        s
    } else {
        match lit_value(s.0, l) {
            VarValue::False => (s.0, s.1, false),
            VarValue::True => s,
            VarValue::Unassigned => (s.0.update(l.spec_var(), crate::lit::value_making_true(l)), s.1.push(l), true),
        }
    }
}

/// The state after the first `k` stored clauses were looked at: an empty
/// clause clears the flag, and the literal of a clause of one literal is
/// asserted.
pub open spec fn asserted_clauses(
    s: (Seq<VarValue>, Seq<Lit>, bool),
    data: Seq<(Seq<Lit>, bool)>,
    k: int,
) -> (Seq<VarValue>, Seq<Lit>, bool)
    decreases k,
{
    if k <= 0 {
        s
    } else {
        let p = asserted_clauses(s, data, k - 1);
        if !p.2 || data[k - 1].0.len() >= 2 {
            p
        } else if data[k - 1].0.len() == 0 {
            (p.0, p.1, false)
        } else {
            asserted(p, data[k - 1].0[0])
        }
    }
}

/// The state after the first `k` unit literals were asserted.
pub open spec fn asserted_units(s: (Seq<VarValue>, Seq<Lit>, bool), units: Seq<Lit>, k: int) -> (
    Seq<VarValue>,
    Seq<Lit>,
    bool,
)
    decreases k,
{
    if k <= 0 {
        s
    } else {
        asserted(asserted_units(s, units, k - 1), units[k - 1])
    }
}

pub proof fn lemma_asserted_clauses_stop(s: (Seq<VarValue>, Seq<Lit>, bool), data: Seq<(Seq<Lit>, bool)>, k: int, later: int)
    requires
        0 <= k <= later,
        !asserted_clauses(s, data, k).2,
    ensures
        asserted_clauses(s, data, later) == asserted_clauses(s, data, k),
    decreases later - k,
{
    if later > k {
        lemma_asserted_clauses_stop(s, data, k, later - 1);
    }
}

pub proof fn lemma_asserted_units_stop(s: (Seq<VarValue>, Seq<Lit>, bool), units: Seq<Lit>, k: int, later: int)
    requires
        0 <= k <= later,
        !asserted_units(s, units, k).2,
    ensures
        asserted_units(s, units, later) == asserted_units(s, units, k),
    decreases later - k,
{
    if later > k {
        lemma_asserted_units_stop(s, units, k, later - 1);
    }
}

/// The two clauses that say that the replaced variable equals the one that
/// stands for it, or its negation.
pub open spec fn link_pair(l: (usize, usize, bool)) -> (Seq<Lit>, Seq<Lit>) {
    (
        seq![Lit::make(l.1 as int, false), Lit::make(l.0 as int, !l.2)],
        seq![Lit::make(l.1 as int, true), Lit::make(l.0 as int, l.2)],
    )
}

/// The clauses of the first `k` replacements, two for each.
pub open spec fn link_clauses(links: Seq<(usize, usize, bool)>, k: int) -> Seq<(Seq<Lit>, bool)>
    decreases k,
{
    if k <= 0 {
        Seq::empty()
    } else {
        link_clauses(links, k - 1).push((link_pair(links[k - 1]).0, false)).push((link_pair(links[k - 1]).1, false))
    }
}

/// The first `k` replacements hold in `m`.
pub open spec fn first_links_hold(m: Seq<bool>, links: Seq<(usize, usize, bool)>, k: int) -> bool {
    forall|i: int|
        0 <= i < k ==> (#[trigger] links[i]).0 < m.len() && links[i].1 < m.len() && m[links[i].0 as int] == (m[links[i].1 as int]
            != links[i].2)
}

/// The two clauses of a replacement hold exactly if the replacement does;
/// they are within the variables, and neither holds a literal twice.
pub proof fn lemma_link_pair(l: (usize, usize, bool), m: Seq<bool>)
    requires
        l.1 < l.0 < m.len(),
        m.len() <= MAX_VARS,
    ensures
        (clause_holds(m, link_pair(l).0) && clause_holds(m, link_pair(l).1)) == (m[l.0 as int] == (m[l.1 as int] != l.2)),
{
    let a = link_pair(l).0;
    let b = link_pair(l).1;
    lemma_make_parts(l.1 as int, false);
    lemma_make_parts(l.1 as int, true);
    lemma_make_parts(l.0 as int, l.2);
    lemma_make_parts(l.0 as int, !l.2);
    if clause_holds(m, a) && clause_holds(m, b) {
        let i = choose|i: int| 0 <= i < a.len() && #[trigger] lit_holds(m, a[i]);
        let j = choose|j: int| 0 <= j < b.len() && #[trigger] lit_holds(m, b[j]);
    }
    if m[l.0 as int] == (m[l.1 as int] != l.2) {
        if m[l.1 as int] {
            assert(lit_holds(m, a[0]));
            assert(lit_holds(m, b[1]));
        } else {
            assert(lit_holds(m, a[1]));
            assert(lit_holds(m, b[0]));
        }
    }
}

/// The clauses of a replacement between variables below `n` are within
/// them, and neither holds a literal twice.
pub proof fn lemma_link_pair_ok(l: (usize, usize, bool), n: nat)
    requires
        l.1 < l.0 < n,
        n <= MAX_VARS,
    ensures
        lits_in_range(link_pair(l).0, n),
        lits_in_range(link_pair(l).1, n),
        distinct(link_pair(l).0),
        distinct(link_pair(l).1),
{
    lemma_make_parts(l.1 as int, false);
    lemma_make_parts(l.1 as int, true);
    lemma_make_parts(l.0 as int, l.2);
    lemma_make_parts(l.0 as int, !l.2);
}

/// Appends the two clauses of each replacement.
pub fn push_links(clauses: &mut Vec<Clause>, links: &Vec<(usize, usize, bool)>, num_vars: usize)
    requires
        num_vars <= MAX_VARS,
        links_ok(links@, num_vars as nat),
    ensures
        clause_data(final(clauses)@) == clause_data(old(clauses)@) + link_clauses(links@, links@.len() as int),
        final(clauses)@.len() == old(clauses)@.len() + 2 * links@.len(),
        forall|c: int| 0 <= c < old(clauses)@.len() ==> #[trigger] final(clauses)@[c] == old(clauses)@[c],
        forall|c: int|
            old(clauses)@.len() <= c < final(clauses)@.len() ==> lits_in_range(
                (#[trigger] final(clauses)@[c]).lits@,
                num_vars as nat,
            ) && distinct(final(clauses)@[c].lits@) && final(clauses)@[c].lits@.len() == 2,
        forall|m: Seq<bool>|
            m.len() == num_vars ==> (#[trigger] all_hold(m, final(clauses)@) <==> all_hold(m, old(clauses)@) && links_hold(
                m,
                links@,
            )),
{
    let ghost given = clauses@;
    let ghost n = num_vars as nat;
    proof {
        assert(clause_data(clauses@) =~= clause_data(given) + link_clauses(links@, 0));
    }
    let mut e: usize = 0;
    while e < links.len()
        invariant
            given == old(clauses)@,
            n == num_vars,
            num_vars <= MAX_VARS,
            links_ok(links@, n),
            0 <= e <= links@.len(),
            clause_data(clauses@) == clause_data(given) + link_clauses(links@, e as int),
            clauses@.len() == given.len() + 2 * e,
            forall|c: int| 0 <= c < given.len() ==> #[trigger] clauses@[c] == given[c],
            forall|c: int|
                given.len() <= c < clauses@.len() ==> lits_in_range((#[trigger] clauses@[c]).lits@, n) && distinct(
                    clauses@[c].lits@,
                ) && clauses@[c].lits@.len() == 2,
            forall|m: Seq<bool>|
                m.len() == n ==> (#[trigger] all_hold(m, clauses@) <==> all_hold(m, given) && first_links_hold(
                    m,
                    links@,
                    e as int,
                )),
        decreases links.len() - e,
    {
        let link = links[e];
        let ghost before = clauses@;
        proof {
            assert(link.1 < link.0 < n);
            assert(link.0 as int % 0x8000_0000 == link.0);
            assert(link.1 as int % 0x8000_0000 == link.1);
            lemma_link_pair_ok(link, n);
        }
        let mut a: Vec<Lit> = Vec::new();
        a.push(Lit::new(link.1, false));
        a.push(Lit::new(link.0, !link.2));
        let mut b: Vec<Lit> = Vec::new();
        b.push(Lit::new(link.1, true));
        b.push(Lit::new(link.0, link.2));
        proof {
            assert(a@ =~= link_pair(link).0);
            assert(b@ =~= link_pair(link).1);
        }
        clauses.push(Clause { lits: a, learned: false });
        clauses.push(Clause { lits: b, learned: false });
        proof {
            assert(links@[e as int] == link);
            assert(clause_data(clauses@) =~= clause_data(before).push((link_pair(link).0, false)).push(
                (link_pair(link).1, false),
            ));
            assert(link_clauses(links@, e + 1) == link_clauses(links@, e as int).push((link_pair(link).0, false)).push(
                (link_pair(link).1, false),
            ));
            assert(clause_data(clauses@) =~= clause_data(given) + link_clauses(links@, e + 1));
            assert forall|m: Seq<bool>| m.len() == n implies (#[trigger] all_hold(m, clauses@) <==> all_hold(m, given)
                && first_links_hold(m, links@, e + 1)) by {
                lemma_link_pair(link, m);
                if all_hold(m, clauses@) {
                    assert forall|c: int| 0 <= c < before.len() implies clause_holds(m, (#[trigger] before[c]).lits@) by {
                        assert(clauses@[c] == before[c]);
                    }
                    assert(all_hold(m, before));
                    assert(clause_holds(m, clauses@[before.len() as int].lits@));
                    assert(clause_holds(m, clauses@[before.len() as int + 1].lits@));
                    assert forall|i: int| 0 <= i < e + 1 implies (#[trigger] links@[i]).0 < m.len() && links@[i].1
                        < m.len() && m[links@[i].0 as int] == (m[links@[i].1 as int] != links@[i].2) by {
                        if i < e {
                            assert(first_links_hold(m, links@, e as int));
                        }
                    }
                }
                if all_hold(m, given) && first_links_hold(m, links@, e + 1) {
                    assert(first_links_hold(m, links@, e as int));
                    assert(all_hold(m, before));
                    assert(links@[e as int].0 < m.len());
                    assert forall|c: int| 0 <= c < clauses@.len() implies clause_holds(m, (#[trigger] clauses@[c]).lits@) by {
                        if c < before.len() {
                            assert(clauses@[c] == before[c]);
                        }
                    }
                }
            }
        }
        e = e + 1;
    }
    proof {
        assert forall|m: Seq<bool>| m.len() == n implies (first_links_hold(m, links@, links@.len() as int) <==> #[trigger] links_hold(
            m,
            links@,
        )) by {}
    }
}

impl Solver {
    /// The assignment, the trail and the flag.
    pub open(crate) spec fn root_state(&self) -> (Seq<VarValue>, Seq<Lit>, bool) {
        (self.assignments@, self.trail@, self.ok)
    }

    /// The stored clauses: the literals of each, in their current order,
    /// and whether it was learned.
    pub open(crate) spec fn stored(&self) -> Seq<(Seq<Lit>, bool)> {
        clause_data(self.clauses@)
    }

    /// The preprocessor has nothing to offer for the stored clauses, or a
    /// contradiction was found already.
    pub open(crate) spec fn nothing_to_simplify(&self) -> bool {
        !self.ok || preprocessed(clause_data(self.clauses@), self.num_vars as nat) is None
    }

    /// Nothing waits to be propagated.
    pub open(crate) spec fn idle(&self) -> bool {
        self.q_head == self.trail@.len()
    }

    /// Everything but clauses, watch lists and reasons is as in `o`.
    pub open(crate) spec fn same_trail(&self, o: &Solver) -> bool {
        &&& self.assignments == o.assignments
        &&& self.level == o.level
        &&& self.trail == o.trail
        &&& self.trail_lim == o.trail_lim
        &&& self.q_head == o.q_head
        &&& self.num_vars == o.num_vars
        &&& self.ok == o.ok
        &&& self.analyze_seen == o.analyze_seen
        &&& self.analyze_toclear == o.analyze_toclear
        &&& self.analyze_clause == o.analyze_clause
        &&& self.pos == o.pos
    }

    /// At the root, a state with new clauses, sound watch lists and no
    /// reasons is sound.
    pub(crate) proof fn lemma_restored_wf(&self, o: &Solver)
        requires
            o.wf(),
            o.dl() == 0,
            self.same_trail(o),
            self.reason@.len() == o.n(),
            forall|v: int| 0 <= v < o.n() ==> (#[trigger] self.reason@[v]) is None,
            self.watches@.len() == o.watches@.len(),
            self.inv_clauses(),
            self.inv_watches(),
            self.all_watched(),
        ensures
            self.wf(),
    {
        assert(self.inv_sizes());
        assert forall|i: int| 0 <= i < self.trail@.len() implies #[trigger] self.entry_at(i) by {
            assert(o.entry_at(i));
        }
        assert forall|v: int| 0 <= v < self.n() implies #[trigger] self.var_at(v) by {
            assert(o.var_at(v));
            if self.assignments@[v] != VarValue::Unassigned {
                assert(o.entry_at(o.pos@[v]));
            }
        }
        assert(self.inv_lims());
        assert(self.lims_strict());
    }

    /// Makes `lit` true at the root: enqueues it if it is unassigned, and
    /// records a contradiction if it is False.
    pub(crate) fn assert_root(&mut self, lit: Lit)
        requires
            old(self).wf(),
            old(self).dl() == 0,
            old(self).ok,
            lit.spec_var() < old(self).n(),
        ensures
            final(self).wf(),
            final(self).dl() == 0,
            final(self).ok == (old(self).val(lit) != VarValue::False),
            final(self).ok ==> final(self).enqueued(old(self), lit, None),
            final(self).ok ==> final(self).val(lit) == VarValue::True,
            final(self).clauses == old(self).clauses,
            final(self).num_vars == old(self).num_vars,
            final(self).root_state() == asserted(old(self).root_state(), lit),
            final(self).reason@ == old(self).reason@,
            forall|m: Seq<bool>| #[trigger] final(self).models(m) <==> old(self).models(m) && lit_holds(m, lit),
    {
        let ghost o = *self;
        proof {
            assert(o.var_at(lit.spec_var()));
        }
        match Self::value_lit(&self.assignments, lit) {
            VarValue::False => {
                self.ok = false;
                proof {
                    self.lemma_flagged(&o);
                    assert forall|m: Seq<bool>| !(o.models(m) && lit_holds(m, lit)) by {
                        if o.models(m) && lit_holds(m, lit) {
                            o.lemma_false_on_trail(lit);
                            assert(lit_holds(m, o.trail@[o.at(lit)]));
                        }
                    }
                }
            },
            _ => {
                self.unchecked_enqueue(lit, None);
                proof {
                    assert(self.reason@ =~= o.reason@);
                    assert forall|m: Seq<bool>| #[trigger] self.models(m) <==> o.models(m) && lit_holds(m, lit) by {
                        if o.val(lit) == VarValue::Unassigned {
                            self.lemma_enqueued_models(&o, lit, None, m);
                        } else {
                            if o.models(m) {
                                o.lemma_true_on_trail(lit);
                                assert(lit_holds(m, o.trail@[o.at(lit)]));
                            }
                        }
                    }
                }
            },
        }
    }

    /// Asserting a literal at the root keeps the trail and the values that
    /// there were.
    pub(crate) proof fn lemma_keeps_after_root(&self, b: &Solver, o: &Solver, l: Lit)
        requires
            b.keeps_values(o),
            b.n() == o.n(),
            b.assignments@.len() == b.n(),
            l.spec_var() < b.n(),
            self.root_state() == asserted(b.root_state(), l),
            b.ok,
        ensures
            self.keeps_values(o),
    {
        assert forall|i: int| 0 <= i < o.trail@.len() implies #[trigger] self.trail@[i] == o.trail@[i] by {
            assert(b.trail@[i] == o.trail@[i]);
        }
        assert forall|v: int| 0 <= v < o.n() && #[trigger] o.assignments@[v] != VarValue::Unassigned implies self.assignments@[v]
            == o.assignments@[v] by {
            assert(b.assignments@[v] == o.assignments@[v]);
        }
    }

    /// What holds of the stored clauses while what the preprocessor returned
    /// is taken over, the first `upto` clauses having been looked at: every
    /// clause is watched, the long ones are guarded, and those of one
    /// literal that were looked at are True.
    pub open(crate) spec fn taking_over(&self, upto: int) -> bool {
        &&& forall|c: int| 0 <= c < self.clauses@.len() ==> #[trigger] self.clause_watched(c)
        &&& forall|c: int|
            0 <= c < self.clauses@.len() && self.lits(c).len() >= 2 ==> #[trigger] self.clause_guarded(
                c,
                self.q_head as int,
            )
        &&& forall|c: int|
            0 <= c < upto ==> (#[trigger] self.lits(c)).len() >= 1 && (self.lits(c).len() == 1 ==> self.val(self.lits(c)[0])
                == VarValue::True)
    }

    /// Enqueueing at the root keeps what holds of the stored clauses.
    pub(crate) proof fn lemma_taking_over(&self, o: &Solver, lit: Lit, upto: int)
        requires
            o.wf(),
            o.dl() == 0,
            lit.spec_var() < o.n(),
            self.enqueued(o, lit, None),
            0 <= upto <= o.clauses@.len(),
            o.taking_over(upto),
        ensures
            self.taking_over(upto),
    {
        assert forall|c: int| 0 <= c < self.clauses@.len() implies #[trigger] self.clause_watched(c) by {
            assert(o.clause_watched(c));
        }
        assert forall|c: int| 0 <= c < self.clauses@.len() && self.lits(c).len() >= 2 implies #[trigger] self.clause_guarded(
            c,
            self.q_head as int,
        ) by {
            assert(o.clause_guarded(c, o.q_head as int));
            self.lemma_guard_enqueued(o, lit, None, c, o.q_head as int);
        }
        assert forall|c: int| 0 <= c < upto implies (#[trigger] self.lits(c)).len() >= 1 && (self.lits(c).len() == 1
            ==> self.val(self.lits(c)[0]) == VarValue::True) by {
            assert(o.lits(c).len() >= 1);
            assert(o.clause_ok(c));
            if o.lits(c).len() == 1 {
                assert(o.val(o.lits(c)[0]) == VarValue::True);
            }
        }
    }

    /// Once every stored clause was looked at, the two-watched-literal
    /// invariant holds.
    pub(crate) proof fn lemma_taken_over(&self)
        requires
            self.wf(),
            self.dl() == 0,
            self.taking_over(self.clauses@.len() as int),
        ensures
            self.guarded(),
    {
        assert forall|c: int| 0 <= c < self.clauses@.len() implies #[trigger] self.clause_guarded(c, self.q_head as int) by {
            let ls = self.lits(c);
            assert(ls.len() >= 1);
            assert(self.clause_ok(c));
            if ls.len() == 1 {
                self.lemma_true_on_trail(ls[0]);
            }
        }
    }

    /// The first two literals of every stored clause of two or more literals
    /// can guard it under the assignment of `o`.
    pub open(crate) spec fn watchable_in(&self, o: &Solver) -> bool {
        forall|c: int| 0 <= c < self.clauses@.len() && (#[trigger] self.lits(c)).len() >= 2 ==> o.can_watch(self.lits(c))
    }

    /// Runs the preprocessor on the clause store. If it returns a new
    /// database, that replaces the store, followed by two clauses for each
    /// replacement, which tie the replaced variable to the one that stands
    /// for it; the watch lists are rebuilt, and the unit literals found, and
    /// those of stored clauses of one literal, are made true at the root; an
    /// empty clause or a unit literal that is False is a contradiction. The
    /// formula keeps its models. Returns the number of unit literals found,
    /// or `None` if the preprocessor returned nothing, in which case nothing
    /// changes.
    pub fn simplify(&mut self) -> (r: Option<usize>)
        requires
            old(self).wf(),
            old(self).spec_decision_level() == 0,
        ensures
            final(self).wf(),
            final(self).spec_decision_level() == 0,
            final(self).spec_num_vars() == old(self).spec_num_vars(),
            r is None <==> old(self).nothing_to_simplify(),
            r is None ==> *final(self) == *old(self),
            r is Some ==> {
                let p = preprocessed(old(self).stored(), old(self).spec_num_vars());
                &&& p is Some
                &&& final(self).stored() == (p->0).0 + link_clauses((p->0).2, (p->0).2.len() as int)
                &&& r->0 == (p->0).1.len()
                &&& final(self).root_state() == asserted_units(
                    asserted_clauses(old(self).root_state(), final(self).stored(), final(self).stored().len() as int),
                    (p->0).1,
                    (p->0).1.len() as int,
                )
            },
            forall|m: Seq<bool>| #[trigger] final(self).models(m) <==> old(self).models(m),
            final(self).keeps_values(old(self)),
            r is Some && final(self).spec_ok() && final(self).watchable_in(old(self)) ==> final(self).guarded(),
    {
        if !self.ok {
            return None;
        }
        let ghost o = *self;
        proof {
            assert forall|c: int| 0 <= c < self.clauses@.len() implies lits_in_range(
                (#[trigger] self.clauses@[c]).lits@,
                self.num_vars as nat,
            ) by {
                assert(self.clause_ok(c));
            }
        }
        let result = match preprocess(&self.clauses, self.num_vars) {
            None => {
                return None;
            },
            Some(result) => result,
        };
        let found = result.units.len();
        let ghost new_clauses = result.clauses@;
        let ghost new_units = result.units@;
        let ghost links = result.replacements@;
        let units = result.units;
        let replacements = result.replacements;
        self.clauses = result.clauses;
        let count = self.num_vars;
        push_links(&mut self.clauses, &replacements, count);
        let ghost linked = self.clauses@;
        proof {
            assert forall|m: Seq<bool>|
                m.len() == o.n() && #[trigger] all_hold(m, linked) && units_hold(m, new_units) implies all_hold(
                m,
                o.clauses@,
            ) by {
                assert(all_hold(m, new_clauses) && links_hold(m, links));
            }
        }
        let mut v: usize = 0;
        while v < self.num_vars
            invariant
                self.same_trail(&o),
                self.clauses@ == linked,
                self.watches == o.watches,
                self.reason@.len() == o.n(),
                0 <= v <= self.num_vars,
                forall|u: int| 0 <= u < v ==> (#[trigger] self.reason@[u]) is None,
            decreases self.num_vars - v,
        {
            self.reason[v] = None;
            v = v + 1;
        }
        proof {
            assert forall|c: int| 0 <= c < self.clauses@.len() implies #[trigger] self.clause_ok(c) by {
                let ls = self.lits(c);
                if c < new_clauses.len() {
                    assert(linked[c] == new_clauses[c]);
                    assert(lits_in_range(new_clauses[c].lits@, o.n() as nat));
                    assert(crate::normalize::strictly_sorted(new_clauses[c].lits@));
                    assert forall|i: int, j: int| 0 <= i < j < ls.len() implies ls[i] != ls[j] by {
                        assert(ls[i].code() < ls[j].code());
                    }
                } else {
                    assert(distinct(linked[c].lits@));
                }
            }
        }
        let ghost s0 = *self;
        self.rebuild_watches();
        let ghost s1 = *self;
        let ghost watchable = s1.watchable_in(&o);
        proof {
            self.lemma_restored_wf(&o);
            assert forall|m: Seq<bool>| o.models(m) implies #[trigger] self.models(m) by {
                assert(is_model(m, o.clauses@, o.n() as nat)) by {
                    assert forall|c: int| 0 <= c < o.clauses@.len() implies clause_holds(
                        m,
                        (#[trigger] o.clauses@[c]).lits@,
                    ) by {
                        assert(clause_holds(m, o.lits(c)));
                    }
                }
                assert(all_hold(m, new_clauses) && links_hold(m, links));
                assert(all_hold(m, linked));
                assert forall|c: int| 0 <= c < self.clauses@.len() implies clause_holds(m, #[trigger] self.lits(c)) by {
                    assert(clause_holds(m, self.clauses@[c].lits@));
                }
                assert forall|i: int| 0 <= i < self.root_end() implies lit_holds(m, #[trigger] self.trail@[i]) by {
                    assert(lit_holds(m, o.trail@[i]));
                }
            }
            if watchable {
                assert forall|c: int| 0 <= c < self.clauses@.len() && self.lits(c).len() >= 2 implies #[trigger] self.clause_guarded(
                    c,
                    self.q_head as int,
                ) by {
                    let ls = self.lits(c);
                    assert(o.can_watch(ls));
                    assert(self.clause_ok(c));
                    if clause_satisfied(o.assignments@, ls) && lit_value(o.assignments@, ls[0]) == VarValue::False {
                        let j = choose|j: int|
                            0 <= j < ls.len() && #[trigger] lit_value(o.assignments@, ls[j]) == VarValue::True;
                        assert(self.val(ls[j]) == VarValue::True);
                        self.lemma_true_on_trail(ls[j]);
                        self.lemma_false_on_trail(ls[0]);
                        assert(self.lvl(ls[j]) == 0);
                    }
                }
                assert(self.taking_over(0));
            }
        }
        let ghost data = clause_data(self.clauses@);
        proof {
            assert(self.root_state() == o.root_state());
        }
        let mut c: usize = 0;
        while c < self.clauses.len() && self.ok
            invariant
                o.wf(),
                o.ok,
                self.wf(),
                self.dl() == 0,
                self.num_vars == o.num_vars,
                self.clauses == s1.clauses,
                data == clause_data(self.clauses@),
                self.root_state() == asserted_clauses(o.root_state(), data, c as int),
                self.keeps_values(&o),
                forall|m: Seq<bool>|
                    m.len() == o.n() && #[trigger] all_hold(m, s1.clauses@) && units_hold(m, units@) ==> all_hold(
                        m,
                        o.clauses@,
                    ),
                forall|u: int| 0 <= u < units@.len() ==> (#[trigger] units@[u]).spec_var() < o.n(),
                0 <= c <= self.clauses@.len(),
                forall|m: Seq<bool>| o.models(m) ==> #[trigger] self.models(m),
                forall|m: Seq<bool>| #[trigger] is_model(m, o.clauses@, o.n() as nat) ==> units_hold(m, units@),
                watchable && self.ok ==> self.taking_over(c as int),
            decreases self.clauses.len() - c + (if self.ok {
                1int
            } else {
                0int
            }),
        {
            let len = self.clauses[c].lits.len();
            let ghost b = *self;
            proof {
                assert(data[c as int].0 == self.clauses@[c as int].lits@);
            }
            if len == 0 {
                self.ok = false;
                proof {
                    self.lemma_flagged(&b);
                    assert forall|m: Seq<bool>| o.models(m) implies #[trigger] self.models(m) by {
                        assert(b.models(m));
                        assert(clause_holds(m, b.lits(c as int)));
                    }
                }
            } else if len == 1 {
                let l = self.clauses[c].lits[0];
                proof {
                    assert(self.clause_ok(c as int));
                }
                self.assert_root(l);
                proof {
                    self.lemma_keeps_after_root(&b, &o, l);
                    assert forall|m: Seq<bool>| o.models(m) implies #[trigger] self.models(m) by {
                        assert(b.models(m));
                        assert(clause_holds(m, b.lits(c as int)));
                        let k = choose|k: int| 0 <= k < b.lits(c as int).len() && #[trigger] lit_holds(m, b.lits(c as int)[k]);
                        assert(lit_holds(m, l));
                    }
                    if watchable && self.ok {
                        self.lemma_taking_over(&b, l, c as int);
                        assert(self.taking_over(c + 1));
                    }
                }
            } else {
                proof {
                    if watchable {
                        assert(self.taking_over(c + 1));
                    }
                }
            }
            c = c + 1;
        }
        let ghost mid = asserted_clauses(o.root_state(), data, data.len() as int);
        proof {
            if c < self.clauses@.len() {
                lemma_asserted_clauses_stop(o.root_state(), data, c as int, data.len() as int);
            }
        }
        let mut u: usize = 0;
        while u < units.len() && self.ok
            invariant
                o.wf(),
                self.wf(),
                self.dl() == 0,
                self.num_vars == o.num_vars,
                self.clauses == s1.clauses,
                self.root_state() == asserted_units(mid, units@, u as int),
                self.keeps_values(&o),
                forall|m: Seq<bool>|
                    m.len() == o.n() && #[trigger] all_hold(m, s1.clauses@) && units_hold(m, units@) ==> all_hold(
                        m,
                        o.clauses@,
                    ),
                self.ok ==> forall|k: int| 0 <= k < u ==> self.val(#[trigger] units@[k]) == VarValue::True,
                forall|u: int| 0 <= u < units@.len() ==> (#[trigger] units@[u]).spec_var() < o.n(),
                0 <= u <= units@.len(),
                forall|m: Seq<bool>| o.models(m) ==> #[trigger] self.models(m),
                forall|m: Seq<bool>| #[trigger] is_model(m, o.clauses@, o.n() as nat) ==> units_hold(m, units@),
                watchable && self.ok ==> self.taking_over(self.clauses@.len() as int),
            decreases units.len() - u + (if self.ok {
                1int
            } else {
                0int
            }),
        {
            let l = units[u];
            let ghost b = *self;
            self.assert_root(l);
            proof {
                self.lemma_keeps_after_root(&b, &o, l);
                if self.ok {
                    assert forall|k: int| 0 <= k < u + 1 implies self.val(#[trigger] units@[k]) == VarValue::True by {
                        if k < u {
                            assert(b.val(units@[k]) == VarValue::True);
                            assert(b.assignments@[units@[k].spec_var()] != VarValue::Unassigned);
                        }
                    }
                }
                assert forall|m: Seq<bool>| o.models(m) implies #[trigger] self.models(m) by {
                    assert(b.models(m));
                    assert(is_model(m, o.clauses@, o.n() as nat)) by {
                        assert forall|c: int| 0 <= c < o.clauses@.len() implies clause_holds(
                            m,
                            (#[trigger] o.clauses@[c]).lits@,
                        ) by {
                            assert(clause_holds(m, o.lits(c)));
                        }
                    }
                    assert(units_hold(m, units@));
                    assert(lit_holds(m, units@[u as int]));
                }
                if watchable && self.ok {
                    self.lemma_taking_over(&b, l, self.clauses@.len() as int);
                }
            }
            u = u + 1;
        }
        proof {
            if u < units@.len() {
                lemma_asserted_units_stop(mid, units@, u as int, units@.len() as int);
            }
            if watchable && self.ok {
                self.lemma_taken_over();
            }
            if self.watchable_in(&o) {
                assert forall|c: int| 0 <= c < s1.clauses@.len() && (#[trigger] s1.lits(c)).len() >= 2 implies o.can_watch(
                    s1.lits(c),
                ) by {
                    assert(self.lits(c) == s1.lits(c));
                }
                assert(watchable);
            }
            {
                assert forall|m: Seq<bool>| #[trigger] self.models(m) implies o.models(m) by {
                    assert(self.ok);
                    assert forall|k: int| 0 <= k < units@.len() implies lit_holds(m, #[trigger] units@[k]) by {
                        assert(self.val(units@[k]) == VarValue::True);
                        self.lemma_true_on_trail(units@[k]);
                        assert(lit_holds(m, self.trail@[self.at(units@[k])]));
                    }
                    assert(units_hold(m, units@));
                    assert forall|k: int| 0 <= k < s1.clauses@.len() implies clause_holds(
                        m,
                        (#[trigger] s1.clauses@[k]).lits@,
                    ) by {
                        assert(clause_holds(m, self.lits(k)));
                    }
                    assert(all_hold(m, s1.clauses@));
                    assert(all_hold(m, o.clauses@));
                    assert forall|k: int| 0 <= k < o.clauses@.len() implies clause_holds(m, #[trigger] o.lits(k)) by {
                        assert(clause_holds(m, o.clauses@[k].lits@));
                    }
                    assert forall|i: int| 0 <= i < o.root_end() implies lit_holds(m, #[trigger] o.trail@[i]) by {
                        assert(self.trail@[i] == o.trail@[i]);
                        assert(lit_holds(m, self.trail@[i]));
                    }
                }
            }
        }
        Some(found)
    }

    /// Decides the formula. The clause store is simplified first, then the
    /// search runs. Returns `false` if the formula is unsatisfiable; `true`
    /// otherwise, with every variable assigned and the assignment a model
    /// of the formula.
    pub fn solve<S: BranchingStrategy>(&mut self, strategy: &mut S) -> (r: bool)
        requires
            old(self).wf(),
            old(self).spec_decision_level() == 0,
            old(strategy).inv(),
            old(strategy).vars() == old(self).spec_num_vars(),
        ensures
            final(self).wf(),
            final(strategy).inv(),
            final(strategy).vars() == old(strategy).vars(),
            final(self).spec_num_vars() == old(self).spec_num_vars(),
            r == final(self).spec_ok(),
            r ==> old(self).spec_ok(),
            !r ==> old(self).unsat(),
            forall|m: Seq<bool>| #[trigger] final(self).models(m) <==> old(self).models(m),
            r <==> exists|m: Seq<bool>| old(self).models(m),
            r ==> old(self).models(model_of(final(self).assignment())),
            old(self).spec_ok() && preprocessed(old(self).stored(), old(self).spec_num_vars()) == Some(
                crate::preprocessing::contradiction_data(),
            ) ==> !r,
            final(self).keeps_data(
                if old(self).nothing_to_simplify() {
                    old(self).stored()
                } else {
                    (preprocessed(old(self).stored(), old(self).spec_num_vars())->0).0 + link_clauses(
                        (preprocessed(old(self).stored(), old(self).spec_num_vars())->0).2,
                        (preprocessed(old(self).stored(), old(self).spec_num_vars())->0).2.len() as int,
                    )
                },
            ),
            r ==> final(self).idle() && final(self).guarded() && forall|v: int|
                0 <= v < final(self).spec_num_vars() ==> final(self).assignment()[v] != VarValue::Unassigned,
            r ==> final(self).models(model_of(final(self).assignment())),
    {
        let ghost o = *self;
        let changed = self.simplify();
        let ghost s = *self;
        let r = self.search(strategy);
        proof {
            if o.ok && preprocessed(o.stored(), o.num_vars as nat) == Some(crate::preprocessing::contradiction_data()) {
                let data = crate::preprocessing::contradiction_data().0;
                assert(link_clauses(crate::preprocessing::contradiction_data().2, 0) =~= Seq::empty());
                assert(s.stored() =~= data);
                assert(data.len() == 1 && data[0].0.len() == 0);
                assert(asserted_clauses(o.root_state(), data, 0) == o.root_state());
                assert(!asserted_clauses(o.root_state(), data, 1).2);
                assert(!s.ok);
            }
            assert forall|m: Seq<bool>| #[trigger] self.models(m) <==> o.models(m) by {
                assert(self.models(m) <==> s.models(m));
                assert(s.models(m) <==> o.models(m));
            }
            if r {
                assert(self.models(model_of(self.assignment())));
                assert(o.models(model_of(self.assignment())));
            } else {
                assert forall|m: Seq<bool>| !o.models(m) by {
                    if o.models(m) {
                        assert(s.models(m));
                    }
                }
            }
            if o.nothing_to_simplify() {
                assert(s == o);
            }
        }
        r
    }
}

} // verus!
