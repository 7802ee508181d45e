//! The normal form of a clause: its literals in increasing order of their
//! codes, each once.

use vstd::prelude::*;
use crate::lit::{clause_holds, distinct, lit_holds, lits_in_range, Lit};

verus! {

/// The codes of the literals increase strictly.
pub open spec fn strictly_sorted(s: Seq<Lit>) -> bool {
    forall|i: int, j: int| 0 <= i < j < s.len() ==> s[i].code() < s[j].code()
}

/// The two sequences hold the same literals.
pub open spec fn same_set(s: Seq<Lit>, t: Seq<Lit>) -> bool {
    forall|l: Lit| s.contains(l) <==> t.contains(l)
}

/// `t` is the normal form of `s`.
pub open spec fn is_normal_form(t: Seq<Lit>, s: Seq<Lit>) -> bool {
    strictly_sorted(t) && same_set(t, s)
}

/// The normal form of `s`: the literals of `s`, sorted by code, each once.
pub open spec fn normal_form(s: Seq<Lit>) -> Seq<Lit> {
    choose|t: Seq<Lit>| is_normal_form(t, s)
}

/// Strictly sorted sequences with the same literals are equal.
pub proof fn lemma_sorted_unique(s: Seq<Lit>, t: Seq<Lit>)
    requires
        strictly_sorted(s),
        strictly_sorted(t),
        same_set(s, t),
    ensures
        s == t,
    decreases s.len(),
{
    if s.len() == 0 {
        if t.len() > 0 {
            assert(t.contains(t[0]));
            assert(s.contains(t[0]));
        }
        assert(s =~= t);
    } else {
        let a = s[s.len() - 1];
        assert(s.contains(a));
        assert(t.contains(a));
        let b = t[t.len() - 1];
        assert(t.contains(b));
        assert(s.contains(b));
        let ia = choose|i: int| 0 <= i < t.len() && t[i] == a;
        let ib = choose|i: int| 0 <= i < s.len() && s[i] == b;
        assert(a.code() <= b.code()) by {
            if ia < t.len() - 1 {
                assert(t[ia].code() < t[t.len() - 1].code());
            }
        }
        assert(b.code() <= a.code()) by {
            if ib < s.len() - 1 {
                assert(s[ib].code() < s[s.len() - 1].code());
            }
        }
        assert(a == b);
        let s1 = s.drop_last();
        let t1 = t.drop_last();
        assert forall|l: Lit| s1.contains(l) <==> t1.contains(l) by {
            if s1.contains(l) {
                let i = choose|i: int| 0 <= i < s1.len() && s1[i] == l;
                assert(s[i] == l);
                assert(s[i].code() < s[s.len() - 1].code());
                assert(s.contains(l));
                assert(t.contains(l));
                let k = choose|k: int| 0 <= k < t.len() && t[k] == l;
                assert(k < t.len() - 1);
                assert(t1[k] == l);
            }
            if t1.contains(l) {
                let i = choose|i: int| 0 <= i < t1.len() && t1[i] == l;
                assert(t[i] == l);
                assert(t[i].code() < t[t.len() - 1].code());
                assert(t.contains(l));
                assert(s.contains(l));
                let k = choose|k: int| 0 <= k < s.len() && s[k] == l;
                assert(k < s.len() - 1);
                assert(s1[k] == l);
            }
        }
        lemma_sorted_unique(s1, t1);
        assert(s =~= s1.push(a));
        assert(t =~= t1.push(b));
    }
}

/// A normal form holds in the models in which the clause holds, names the
/// same variables and holds no literal twice.
pub proof fn lemma_normal_form_same(t: Seq<Lit>, s: Seq<Lit>)
    requires
        is_normal_form(t, s),
    ensures
        distinct(t),
        forall|m: Seq<bool>| clause_holds(m, t) == clause_holds(m, s),
        forall|n: nat| lits_in_range(s, n) ==> lits_in_range(t, n),
        t.len() == 0 <==> s.len() == 0,
        normal_form(s) == t,
{
    assert forall|m: Seq<bool>| clause_holds(m, t) == clause_holds(m, s) by {
        if clause_holds(m, t) {
            let k = choose|k: int| 0 <= k < t.len() && #[trigger] lit_holds(m, t[k]);
            assert(t.contains(t[k]));
            assert(s.contains(t[k]));
            let j = choose|j: int| 0 <= j < s.len() && s[j] == t[k];
            assert(lit_holds(m, s[j]));
        }
        if clause_holds(m, s) {
            let k = choose|k: int| 0 <= k < s.len() && #[trigger] lit_holds(m, s[k]);
            assert(s.contains(s[k]));
            assert(t.contains(s[k]));
            let j = choose|j: int| 0 <= j < t.len() && t[j] == s[k];
            assert(lit_holds(m, t[j]));
        }
    }
    assert forall|n: nat| lits_in_range(s, n) implies lits_in_range(t, n) by {
        assert forall|k: int| 0 <= k < t.len() implies (#[trigger] t[k]).spec_var() < n by {
            assert(t.contains(t[k]));
            assert(s.contains(t[k]));
            let j = choose|j: int| 0 <= j < s.len() && s[j] == t[k];
            assert(s[j].spec_var() < n);
        }
    }
    if t.len() > 0 {
        assert(t.contains(t[0]));
        assert(s.contains(t[0]));
    }
    if s.len() > 0 {
        assert(s.contains(s[0]));
        assert(t.contains(s[0]));
    }
    let u = normal_form(s);
    assert(is_normal_form(u, s));
    lemma_sorted_unique(u, t);
}

/// Every clause has a normal form.
pub proof fn lemma_normal_form_exists(s: Seq<Lit>)
    ensures
        is_normal_form(normal_form(s), s),
    decreases s.len(),
{
    if s.len() == 0 {
        let t = Seq::<Lit>::empty();
        assert(is_normal_form(t, s));
    } else {
        let rest = s.drop_last();
        let l = s.last();
        lemma_normal_form_exists(rest);
        let r = normal_form(rest);
        if r.contains(l) {
            assert(is_normal_form(r, s)) by {
                assert forall|x: Lit| r.contains(x) <==> s.contains(x) by {
                    if r.contains(x) {
                        assert(rest.contains(x));
                        let k = choose|k: int| 0 <= k < rest.len() && rest[k] == x;
                        assert(s[k] == x);
                    }
                    if s.contains(x) {
                        let k = choose|k: int| 0 <= k < s.len() && s[k] == x;
                        if k < rest.len() {
                            assert(rest[k] == x);
                            assert(rest.contains(x));
                        }
                    }
                }
            }
        } else {
            let j = first_above(r, l, 0);
            lemma_first_above(r, l, 0);
            let t = r.insert(j, l);
            assert(strictly_sorted(t)) by {
                assert forall|a: int, b: int| 0 <= a < b < t.len() implies t[a].code() < t[b].code() by {
                    if a < j && b < j {
                        assert(r[a].code() < r[b].code());
                    } else if a < j && b == j {
                    } else if a < j && b > j {
                        assert(t[b] == r[b - 1]);
                        if a < b - 1 {
                            assert(r[a].code() < r[b - 1].code());
                        }
                    } else if a == j {
                        assert(t[b] == r[b - 1]);
                        if j < b - 1 {
                            assert(r[j].code() < r[b - 1].code());
                        }
                        assert(r[j].code() != l.code()) by {
                            if r[j].code() == l.code() {
                                assert(r[j] == l);
                                assert(r.contains(l));
                            }
                        }
                    } else {
                        assert(t[a] == r[a - 1]);
                        assert(t[b] == r[b - 1]);
                        assert(r[a - 1].code() < r[b - 1].code());
                    }
                }
            }
            assert forall|x: Lit| t.contains(x) <==> s.contains(x) by {
                if t.contains(x) {
                    let k = choose|k: int| 0 <= k < t.len() && t[k] == x;
                    if k == j {
                        assert(s[s.len() - 1] == x);
                    } else {
                        let k0 = if k < j { k } else { k - 1 };
                        assert(r[k0] == x);
                        assert(r.contains(x));
                        assert(rest.contains(x));
                        let q = choose|q: int| 0 <= q < rest.len() && rest[q] == x;
                        assert(s[q] == x);
                    }
                }
                if s.contains(x) {
                    let q = choose|q: int| 0 <= q < s.len() && s[q] == x;
                    if q == s.len() - 1 {
                        assert(t[j] == x);
                    } else {
                        assert(rest[q] == x);
                        assert(rest.contains(x));
                        assert(r.contains(x));
                        let k = choose|k: int| 0 <= k < r.len() && r[k] == x;
                        let k1 = if k < j { k } else { k + 1 };
                        assert(t[k1] == x);
                    }
                }
            }
            assert(is_normal_form(t, s));
        }
    }
}

/// The first position from `from` on whose literal has a code not below
/// that of `l`; the length if there is none.
pub open spec fn first_above(r: Seq<Lit>, l: Lit, from: int) -> int
    decreases r.len() - from,
{
    if from >= r.len() || from < 0 || r[from].code() >= l.code() {
        from
    } else {
        first_above(r, l, from + 1)
    }
}

pub proof fn lemma_first_above(r: Seq<Lit>, l: Lit, from: int)
    requires
        0 <= from <= r.len(),
    ensures
        from <= first_above(r, l, from) <= r.len(),
        forall|k: int| from <= k < first_above(r, l, from) ==> r[k].code() < l.code(),
        first_above(r, l, from) < r.len() ==> r[first_above(r, l, from)].code() >= l.code(),
    decreases r.len() - from,
{
    if from < r.len() && r[from].code() < l.code() {
        lemma_first_above(r, l, from + 1);
    }
}

/// Brings a clause into normal form: sorts its literals by code and drops
/// repeated literals.
pub fn sort_dedup(lits: &mut Vec<Lit>)
    ensures
        is_normal_form(final(lits)@, old(lits)@),
        final(lits)@ == normal_form(old(lits)@),
{
    let mut out: Vec<Lit> = Vec::new();
    let mut i: usize = 0;
    while i < lits.len()
        invariant
            *lits == *old(lits),
            0 <= i <= lits@.len(),
            strictly_sorted(out@),
            forall|l: Lit| out@.contains(l) <==> lits@.take(i as int).contains(l),
        decreases lits.len() - i,
    {
        let l = lits[i];
        let mut j: usize = 0;
        while j < out.len() && out[j].to_usize() < l.to_usize()
            invariant
                0 <= j <= out@.len(),
                forall|k: int| 0 <= k < j ==> (#[trigger] out@[k]).code() < l.code(),
            decreases out.len() - j,
        {
            j = j + 1;
        }
        let ghost before = out@;
        let ghost seen = lits@.take(i as int);
        let ghost seen2 = lits@.take(i + 1);
        if j == out.len() || out[j].to_usize() != l.to_usize() {
            out.insert(j, l);
            proof {
                assert forall|a: int, b: int| 0 <= a < b < out@.len() implies out@[a].code() < out@[b].code() by {
                    let a0 = if a < j { a } else { a - 1 };
                    let b0 = if b < j { b } else { b - 1 };
                    if a != j && b != j {
                        assert(before[a0].code() < before[b0].code());
                    } else if a == j {
                        assert(out@[b] == before[b - 1]);
                        if b - 1 > j {
                            assert(before[j as int].code() < before[b - 1].code());
                        }
                    } else {
                        assert(out@[a] == before[a]);
                    }
                }
                assert forall|x: Lit| out@.contains(x) <==> seen2.contains(x) by {
                    if out@.contains(x) {
                        let k = choose|k: int| 0 <= k < out@.len() && out@[k] == x;
                        if k == j {
                            assert(seen2[i as int] == x);
                        } else {
                            let k0 = if k < j { k } else { k - 1 };
                            assert(before[k0] == x);
                            assert(before.contains(x));
                            assert(seen.contains(x));
                            let q = choose|q: int| 0 <= q < seen.len() && seen[q] == x;
                            assert(seen2[q] == x);
                        }
                    }
                    if seen2.contains(x) {
                        let q = choose|q: int| 0 <= q < seen2.len() && seen2[q] == x;
                        if q == i {
                            assert(out@[j as int] == x);
                        } else {
                            assert(seen[q] == x);
                            assert(seen.contains(x));
                            assert(before.contains(x));
                            let k = choose|k: int| 0 <= k < before.len() && before[k] == x;
                            let k1 = if k < j { k } else { k + 1 };
                            assert(out@[k1] == x);
                        }
                    }
                }
            }
        } else {
            proof {
                assert(out@[j as int] == l);
                assert forall|x: Lit| out@.contains(x) <==> seen2.contains(x) by {
                    if out@.contains(x) {
                        assert(seen.contains(x));
                        let q = choose|q: int| 0 <= q < seen.len() && seen[q] == x;
                        assert(seen2[q] == x);
                    }
                    if seen2.contains(x) {
                        let q = choose|q: int| 0 <= q < seen2.len() && seen2[q] == x;
                        if q == i {
                            assert(out@[j as int] == x);
                        } else {
                            assert(seen[q] == x);
                            assert(seen.contains(x));
                        }
                    }
                }
            }
        }
        i = i + 1;
    }
    proof {
        assert(lits@.take(lits@.len() as int) =~= lits@);
        lemma_normal_form_same(out@, lits@);
    }
    *lits = out;
}

} // verus!
