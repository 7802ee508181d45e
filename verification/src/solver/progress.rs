//! A measure of the trail that grows with every step of the search, which
//! is why the search ends.

use vstd::prelude::*;
use crate::lit::Lit;
use crate::solver::Solver;

verus! {

/// `(n + 1)` to the power `k`.
pub open spec fn weight(n: nat, k: nat) -> nat
    decreases k,
{
    if k == 0 {
        1
    } else {
        (n + 1) * weight(n, (k - 1) as nat)
    }
}

/// The sum, over the trail, of `(n + 1)^(n - level)`: the trail read as a
/// number in base `n + 1` whose digit at level `l` is the number of literals
/// assigned at that level.
pub open spec fn progress_of(t: Seq<Lit>, lv: Seq<usize>, n: nat) -> nat
    decreases t.len(),
{
    if t.len() == 0 {
        0
    } else {
        progress_of(t.drop_last(), lv, n) + weight(n, (n - lv[t.last().spec_var()]) as nat)
    }
}

pub proof fn lemma_weight_positive(n: nat, k: nat)
    ensures
        weight(n, k) >= 1,
    decreases k,
{
    if k > 0 {
        lemma_weight_positive(n, (k - 1) as nat);
        assert((n + 1) * weight(n, (k - 1) as nat) >= 1) by (nonlinear_arith)
            requires
                weight(n, (k - 1) as nat) >= 1,
        ;
    }
}

pub proof fn lemma_weight_monotone(n: nat, j: nat, k: nat)
    requires
        j <= k,
    ensures
        weight(n, j) <= weight(n, k),
    decreases k,
{
    if j < k {
        lemma_weight_monotone(n, j, (k - 1) as nat);
        lemma_weight_positive(n, (k - 1) as nat);
        assert((n + 1) * weight(n, (k - 1) as nat) >= weight(n, (k - 1) as nat)) by (nonlinear_arith)
            requires
                weight(n, (k - 1) as nat) >= 1,
        ;
    }
}

/// The measure depends on the levels of the variables of the trail only.
pub proof fn lemma_progress_agree(t: Seq<Lit>, lv1: Seq<usize>, lv2: Seq<usize>, n: nat)
    requires
        forall|i: int| 0 <= i < t.len() ==> lv1[(#[trigger] t[i]).spec_var()] == lv2[t[i].spec_var()],
    ensures
        progress_of(t, lv1, n) == progress_of(t, lv2, n),
    decreases t.len(),
{
    if t.len() > 0 {
        let t1 = t.drop_last();
        assert forall|i: int| 0 <= i < t1.len() implies lv1[(#[trigger] t1[i]).spec_var()] == lv2[t1[i].spec_var()] by {
            assert(t1[i] == t[i]);
        }
        lemma_progress_agree(t1, lv1, lv2, n);
        assert(t.last() == t[t.len() - 1]);
    }
}

/// Cutting the trail at `k` loses at most `(n + 1)^(n - bl - 1)` for each
/// entry cut off, if these are all of levels above `bl`.
pub proof fn lemma_progress_cut(t: Seq<Lit>, k: int, lv: Seq<usize>, n: nat, bl: int)
    requires
        0 <= k <= t.len(),
        0 <= bl < n,
        forall|i: int| k <= i < t.len() ==> bl < lv[(#[trigger] t[i]).spec_var()] <= n,
    ensures
        progress_of(t.take(k), lv, n) <= progress_of(t, lv, n),
        progress_of(t, lv, n) <= progress_of(t.take(k), lv, n) + (t.len() - k) * weight(n, (n - bl - 1) as nat),
    decreases t.len(),
{
    if k == t.len() {
        assert(t.take(k) =~= t);
    } else {
        let t1 = t.drop_last();
        assert forall|i: int| k <= i < t1.len() implies bl < lv[(#[trigger] t1[i]).spec_var()] <= n by {
            assert(t1[i] == t[i]);
        }
        lemma_progress_cut(t1, k, lv, n, bl);
        assert(t1.take(k) =~= t.take(k));
        let l = lv[t.last().spec_var()];
        assert(t.last() == t[t.len() - 1]);
        lemma_weight_monotone(n, (n - l) as nat, (n - bl - 1) as nat);
        let w = weight(n, (n - bl - 1) as nat);
        assert((t.len() - k) * w == (t1.len() - k) * w + w) by (nonlinear_arith)
            requires
                t1.len() == t.len() - 1,
        ;
    }
}

/// A prefix of the trail measures no more than the trail.
pub proof fn lemma_progress_prefix(t: Seq<Lit>, k: int, lv: Seq<usize>, n: nat)
    requires
        0 <= k <= t.len(),
    ensures
        progress_of(t.take(k), lv, n) <= progress_of(t, lv, n),
    decreases t.len(),
{
    if k == t.len() {
        assert(t.take(k) =~= t);
    } else {
        let t1 = t.drop_last();
        lemma_progress_prefix(t1, k, lv, n);
        assert(t1.take(k) =~= t.take(k));
    }
}

/// The measure is at most `(n + 1)^n` for each entry of the trail.
pub proof fn lemma_progress_bound(t: Seq<Lit>, lv: Seq<usize>, n: nat)
    requires
        forall|i: int| 0 <= i < t.len() ==> lv[(#[trigger] t[i]).spec_var()] <= n,
    ensures
        progress_of(t, lv, n) <= t.len() * weight(n, n),
    decreases t.len(),
{
    if t.len() > 0 {
        let t1 = t.drop_last();
        assert forall|i: int| 0 <= i < t1.len() implies lv[(#[trigger] t1[i]).spec_var()] <= n by {
            assert(t1[i] == t[i]);
        }
        lemma_progress_bound(t1, lv, n);
        assert(t.last() == t[t.len() - 1]);
        let l = lv[t.last().spec_var()];
        lemma_weight_monotone(n, (n - l) as nat, n);
        let w = weight(n, n);
        assert(t.len() * w == t1.len() * w + w) by (nonlinear_arith)
            requires
                t1.len() == t.len() - 1,
        ;
    } else {
        assert(t.len() * weight(n, n) == 0) by (nonlinear_arith)
            requires
                t.len() == 0,
        ;
    }
}

impl Solver {
    /// The measure of the current trail.
    pub open(crate) spec fn progress(&self) -> nat {
        progress_of(self.trail@, self.level@, self.num_vars as nat)
    }

    /// The bound that the measure stays below.
    pub open(crate) spec fn progress_cap(&self) -> nat {
        weight(self.num_vars as nat, self.num_vars as nat + 1)
    }

    /// There are no more decision levels than variables.
    pub(crate) proof fn lemma_levels_bounded(&self)
        requires
            self.wf(),
        ensures
            self.dl() <= self.trail@.len() <= self.n(),
    {
        self.lemma_trail_bounded();
        if self.dl() > 0 {
            self.lemma_level_count(self.dl() - 1);
            assert(self.trail_lim@[self.dl() - 1] < self.trail@.len());
        }
    }

    /// The measure stays below its bound.
    pub(crate) proof fn lemma_progress_capped(&self)
        requires
            self.wf(),
        ensures
            self.progress() <= self.progress_cap(),
    {
        let n = self.num_vars as nat;
        self.lemma_levels_bounded();
        assert forall|i: int| 0 <= i < self.trail@.len() implies self.level@[(#[trigger] self.trail@[i]).spec_var()]
            <= n by {
            assert(self.entry_at(i));
        }
        lemma_progress_bound(self.trail@, self.level@, n);
        let w = weight(n, n);
        assert(self.trail@.len() * w <= (n + 1) * w) by (nonlinear_arith)
            requires
                self.trail@.len() <= n,
                w >= 0,
        ;
    }

    /// A state that continues `o` measures at least as much.
    pub(crate) proof fn lemma_progress_extends(&self, o: &Solver)
        requires
            o.wf(),
            self.extends(o),
        ensures
            o.progress() <= self.progress(),
    {
        let n = self.num_vars as nat;
        let k = o.trail@.len() as int;
        lemma_progress_prefix(self.trail@, k, self.level@, n);
        assert(self.trail@.take(k) =~= o.trail@);
        assert forall|i: int| 0 <= i < o.trail@.len() implies self.level@[(#[trigger] o.trail@[i]).spec_var()]
            == o.level@[o.trail@[i].spec_var()] by {
            assert(o.entry_at(i));
            assert(self.var_kept(o, o.trail@[i].spec_var()));
        }
        lemma_progress_agree(o.trail@, self.level@, o.level@, n);
    }

    /// Enqueueing an unassigned literal adds the weight of the current level.
    pub(crate) proof fn lemma_progress_enqueued(&self, o: &Solver, lit: Lit, reason: Option<usize>)
        requires
            o.wf_core(),
            lit.spec_var() < o.n(),
            o.val(lit) == crate::lit::VarValue::Unassigned,
            self.enqueued(o, lit, reason),
            o.dl() <= o.n(),
        ensures
            self.progress() == o.progress() + weight(o.num_vars as nat, (o.n() - o.dl()) as nat),
    {
        let n = self.num_vars as nat;
        assert(self.trail@.drop_last() =~= o.trail@);
        assert forall|i: int| 0 <= i < o.trail@.len() implies self.level@[(#[trigger] o.trail@[i]).spec_var()]
            == o.level@[o.trail@[i].spec_var()] by {
            assert(o.entry_at(i));
        }
        lemma_progress_agree(o.trail@, self.level@, o.level@, n);
    }

    /// Backtracking to a level below the current one and then gaining the
    /// weight of that level is a net gain.
    pub(crate) proof fn lemma_progress_backtracked(&self, o: &Solver, level: int)
        requires
            o.wf(),
            0 <= level < o.dl(),
            self.backtracked(o, level),
        ensures
            o.progress() < self.progress() + weight(o.num_vars as nat, (o.n() - level) as nat),
    {
        let n = o.num_vars as nat;
        let k = self.trail@.len() as int;
        o.lemma_levels_bounded();
        assert forall|i: int| k <= i < o.trail@.len() implies level < o.level@[(#[trigger] o.trail@[i]).spec_var()]
            <= n by {
            assert(o.entry_at(i));
            let lv = o.lvl(o.trail@[i]);
            if lv <= level {
                assert(o.trail_lim@[lv] <= o.trail_lim@[level]) by {
                    if lv < level {
                        assert(o.trail_lim@[lv] < o.trail_lim@[level]);
                    }
                }
            }
        }
        lemma_progress_cut(o.trail@, k, o.level@, n, level);
        assert forall|i: int| 0 <= i < self.trail@.len() implies self.level@[(#[trigger] self.trail@[i]).spec_var()]
            == o.level@[self.trail@[i].spec_var()] by {
            assert(o.entry_at(i));
            assert(self.unwound_var(o, k, o.trail@[i].spec_var()));
        }
        lemma_progress_agree(self.trail@, self.level@, o.level@, n);
        let w = weight(n, (n - level - 1) as nat);
        lemma_weight_positive(n, (n - level - 1) as nat);
        assert((o.trail@.len() - k) * w < (n + 1) * w) by (nonlinear_arith)
            requires
                o.trail@.len() - k <= n,
                w >= 1,
        ;
    }
}

} // verus!
