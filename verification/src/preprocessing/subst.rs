//! Putting the result of the elimination back into clauses: substitution of
//! equivalent variables, clause simplification, and the clauses of an XOR.

use std::collections::HashMap;
use vstd::prelude::*;
use crate::lit::{clause_holds, lit_holds, Clause, Lit, MAX_VARS};
use crate::normalize::{is_normal_form, normal_form, sort_dedup, strictly_sorted};
use crate::preprocessing::parity;

verus! {

/// How far `apply_replacements` follows a chain of replacements.
pub const MAX_DEPTH: usize = 101;

/// Where a literal of variable `var` and polarity `neg` ends up after at
/// most `fuel` replacements: each entry `t -> (s, invert)` of the map turns
/// a literal of `t` into one of `s`, of the other polarity iff `invert`.
pub open spec fn resolve(map: Map<usize, (usize, bool)>, var: usize, neg: bool, fuel: nat) -> (usize, bool)
    decreases fuel,
{
    if fuel > 0 && map.contains_key(var) {
        resolve(map, map[var].0, neg != map[var].1, (fuel - 1) as nat)
    } else {
        (var, neg)
    }
}

/// The literal that `apply_replacements` puts in the place of `l`.
pub open spec fn replaced(map: Map<usize, (usize, bool)>, l: Lit) -> Lit {
    let r = resolve(map, l.spec_var() as usize, l.spec_is_neg(), MAX_DEPTH as nat);
    Lit::make(r.0 as int % 0x8000_0000, r.1)
}

/// Every replacement of the map is an equivalence that holds in `m`.
pub open spec fn map_holds(map: Map<usize, (usize, bool)>, m: Seq<bool>) -> bool {
    forall|t: usize| #[trigger]
        map.contains_key(t) ==> t < m.len() && map[t].0 < m.len() && m[t as int] == (m[map[t].0 as int] != map[t].1)
}

/// Replacing by equivalences that hold in `m` keeps the value of a literal in `m`.
pub proof fn lemma_resolve_holds(map: Map<usize, (usize, bool)>, var: usize, neg: bool, fuel: nat, m: Seq<bool>)
    requires
        map_holds(map, m),
        var < m.len(),
    ensures
        resolve(map, var, neg, fuel).0 < m.len(),
        (m[resolve(map, var, neg, fuel).0 as int] != resolve(map, var, neg, fuel).1) == (m[var as int] != neg),
    decreases fuel,
{
    if fuel > 0 && map.contains_key(var) {
        lemma_resolve_holds(map, map[var].0, neg != map[var].1, (fuel - 1) as nat, m);
    }
}

/// A literal is made of its variable and polarity.
pub proof fn lemma_make_self(l: Lit)
    ensures
        Lit::make(l.spec_var(), l.spec_is_neg()) == l,
        l.spec_var() < 0x8000_0000,
        l.spec_var() % 0x8000_0000 == l.spec_var(),
{
    let x = l.0 as int;
    assert(2 * (x / 2) + x % 2 == x);
}

/// The parts of a literal made of a variable below the limit.
pub proof fn lemma_make_parts(v: int, neg: bool)
    requires
        0 <= v < 0x8000_0000,
    ensures
        Lit::make(v, neg).spec_var() == v,
        Lit::make(v, neg).spec_is_neg() == neg,
{
}

/// Every replacement of the map is between variables below `n`.
pub open spec fn map_in_range(map: Map<usize, (usize, bool)>, n: nat) -> bool {
    forall|t: usize| #[trigger] map.contains_key(t) ==> t < n && map[t].0 < n
}

/// Replacing within variables below `n` stays below `n`.
pub proof fn lemma_resolve_range(map: Map<usize, (usize, bool)>, var: usize, neg: bool, fuel: nat, n: nat)
    requires
        map_in_range(map, n),
        var < n,
    ensures
        resolve(map, var, neg, fuel).0 < n,
    decreases fuel,
{
    if fuel > 0 && map.contains_key(var) {
        lemma_resolve_range(map, map[var].0, neg != map[var].1, (fuel - 1) as nat, n);
    }
}

/// Replacing the literals of a clause within variables below `n` keeps the
/// clause within them.
pub proof fn lemma_replaced_range(map: Map<usize, (usize, bool)>, ls: Seq<Lit>, out: Seq<Lit>, n: nat)
    requires
        map_in_range(map, n),
        n <= MAX_VARS,
        crate::lit::lits_in_range(ls, n),
        out.len() == ls.len(),
        forall|i: int| 0 <= i < ls.len() ==> #[trigger] out[i] == replaced(map, ls[i]),
    ensures
        crate::lit::lits_in_range(out, n),
{
    assert forall|i: int| 0 <= i < out.len() implies (#[trigger] out[i]).spec_var() < n by {
        let l = ls[i];
        lemma_make_self(l);
        let r = resolve(map, l.spec_var() as usize, l.spec_is_neg(), MAX_DEPTH as nat);
        lemma_resolve_range(map, l.spec_var() as usize, l.spec_is_neg(), MAX_DEPTH as nat, n);
        lemma_make_parts(r.0 as int, r.1);
    }
}

/// Replacing the literals of a clause by equivalences that hold in `m`
/// keeps a clause that holds in `m` holding.
pub proof fn lemma_replaced_clause(map: Map<usize, (usize, bool)>, ls: Seq<Lit>, out: Seq<Lit>, m: Seq<bool>)
    requires
        map_holds(map, m),
        m.len() <= MAX_VARS,
        crate::lit::lits_in_range(ls, m.len()),
        out.len() == ls.len(),
        forall|i: int| 0 <= i < ls.len() ==> #[trigger] out[i] == replaced(map, ls[i]),
        clause_holds(m, ls),
    ensures
        clause_holds(m, out),
{
    let k = choose|k: int| 0 <= k < ls.len() && #[trigger] lit_holds(m, ls[k]);
    lemma_replaced_holds(map, ls[k], m);
    assert(lit_holds(m, out[k]));
}

/// Where no variable stands for another and is replaced itself, a literal
/// is replaced by one of a variable that is not replaced.
pub proof fn lemma_replaced_free(map: Map<usize, (usize, bool)>, l: Lit)
    requires
        forall|k: usize| #[trigger] map.contains_key(k) ==> map[k].0 < MAX_VARS && !map.contains_key(map[k].0),
    ensures
        !map.contains_key(replaced(map, l).spec_var() as usize),
{
    lemma_make_self(l);
    let var = l.spec_var() as usize;
    let neg = l.spec_is_neg();
    let r = resolve(map, var, neg, MAX_DEPTH as nat);
    if map.contains_key(var) {
        let next = map[var].0;
        assert(r == resolve(map, next, neg != map[var].1, (MAX_DEPTH - 1) as nat));
        assert(!map.contains_key(next));
        assert(r.0 == next);
    } else {
        assert(r.0 == var);
    }
    lemma_make_parts(r.0 as int, r.1);
    assert(r.0 as int % 0x8000_0000 == r.0);
}

/// Replacing the literals of a clause by equivalences that hold in `m`: if
/// the new clause holds in `m`, so did the old.
pub proof fn lemma_replaced_clause_back(map: Map<usize, (usize, bool)>, ls: Seq<Lit>, out: Seq<Lit>, m: Seq<bool>)
    requires
        map_holds(map, m),
        m.len() <= MAX_VARS,
        crate::lit::lits_in_range(ls, m.len()),
        out.len() == ls.len(),
        forall|i: int| 0 <= i < ls.len() ==> #[trigger] out[i] == replaced(map, ls[i]),
        clause_holds(m, out),
    ensures
        clause_holds(m, ls),
{
    let k = choose|k: int| 0 <= k < out.len() && #[trigger] lit_holds(m, out[k]);
    lemma_replaced_holds(map, ls[k], m);
    assert(lit_holds(m, ls[k]));
}

pub proof fn lemma_replaced_holds(map: Map<usize, (usize, bool)>, l: Lit, m: Seq<bool>)
    requires
        map_holds(map, m),
        l.spec_var() < m.len(),
        m.len() <= MAX_VARS,
    ensures
        lit_holds(m, replaced(map, l)) == lit_holds(m, l),
        replaced(map, l).spec_var() < m.len(),
{
    lemma_make_self(l);
    let r = resolve(map, l.spec_var() as usize, l.spec_is_neg(), MAX_DEPTH as nat);
    lemma_resolve_holds(map, l.spec_var() as usize, l.spec_is_neg(), MAX_DEPTH as nat, m);
    lemma_make_parts(r.0 as int, r.1);
}

/// A literal whose variable the map does not replace stays as it is.
pub proof fn replacement_keeps_normalized(map: Map<usize, (usize, bool)>, l: Lit)
    requires
        !map.contains_key(l.spec_var() as usize),
    ensures
        replaced(map, l) == l,
{
    lemma_make_self(l);
}

/// Replacing is idempotent on a literal whose chain of replacements ends
/// within `MAX_DEPTH` steps at a variable that a literal can name: what comes
/// out is replaced by itself.
pub proof fn replacement_is_idempotent(map: Map<usize, (usize, bool)>, l: Lit)
    requires
        !map.contains_key(resolve(map, l.spec_var() as usize, l.spec_is_neg(), MAX_DEPTH as nat).0),
        resolve(map, l.spec_var() as usize, l.spec_is_neg(), MAX_DEPTH as nat).0 < MAX_VARS,
    ensures
        replaced(map, replaced(map, l)) == replaced(map, l),
{
    let r = resolve(map, l.spec_var() as usize, l.spec_is_neg(), MAX_DEPTH as nat);
    lemma_make_parts(r.0 as int, r.1);
    replacement_keeps_normalized(map, replaced(map, l));
}

/// Rewrites each literal along the replacements of `map`, following chains
/// for at most `MAX_DEPTH` steps.
pub fn apply_replacements(lits: &[Lit], map: &HashMap<usize, (usize, bool)>) -> (r: Vec<Lit>)
    ensures
        r@.len() == lits@.len(),
        forall|i: int| 0 <= i < lits@.len() ==> #[trigger] r@[i] == replaced(map@, lits@[i]),
{
    broadcast use vstd::std_specs::hash::group_hash_axioms;

    let mut new_lits: Vec<Lit> = Vec::with_capacity(lits.len());
    let mut i: usize = 0;
    while i < lits.len()
        invariant
            0 <= i <= lits@.len(),
            new_lits@.len() == i,
            forall|j: int| 0 <= j < i ==> #[trigger] new_lits@[j] == replaced(map@, lits@[j]),
        decreases lits.len() - i,
    {
        let lit = lits[i];
        let mut var = lit.var();
        let mut is_neg = lit.is_neg();
        let mut depth: usize = 0;
        loop
            invariant
                depth <= MAX_DEPTH,
                resolve(map@, var, is_neg, (MAX_DEPTH - depth) as nat) == resolve(
                    map@,
                    lit.spec_var() as usize,
                    lit.spec_is_neg(),
                    MAX_DEPTH as nat,
                ),
            ensures
                (var, is_neg) == resolve(map@, lit.spec_var() as usize, lit.spec_is_neg(), MAX_DEPTH as nat),
            decreases MAX_DEPTH - depth,
        {
            match map.get(&var) {
                Some(entry) => {
                    if depth == MAX_DEPTH {
                        break ;
                    }
                    var = entry.0;
                    if entry.1 {
                        is_neg = !is_neg;
                    }
                    depth = depth + 1;
                },
                None => {
                    break ;
                },
            }
        }
        new_lits.push(Lit::new(var, is_neg));
        i = i + 1;
    }
    new_lits
}

/// Some literal of the clause occurs in it negated too.
pub open spec fn tautology(s: Seq<Lit>) -> bool {
    exists|i: int, j: int| 0 <= i < s.len() && 0 <= j < s.len() && #[trigger] s[i] == (#[trigger] s[j]).spec_not()
}

/// In a sorted clause a literal and its negation are neighbours.
pub proof fn lemma_sorted_tautology(t: Seq<Lit>)
    requires
        strictly_sorted(t),
    ensures
        tautology(t) <==> exists|i: int| 0 <= i < t.len() - 1 && (#[trigger] t[i]).spec_var() == t[i + 1].spec_var(),
{
    if tautology(t) {
        let (i, j) = choose|i: int, j: int|
            0 <= i < t.len() && 0 <= j < t.len() && #[trigger] t[i] == (#[trigger] t[j]).spec_not();
        crate::lit::lemma_not_code(t[j]);
        let lo = if i < j { i } else { j };
        let hi = if i < j { j } else { i };
        assert(lo < hi);
        assert(t[lo].code() < t[hi].code());
        if lo + 1 < hi {
            assert(t[lo].code() < t[lo + 1].code());
            assert(t[lo + 1].code() < t[hi].code());
        }
        assert(t[lo].spec_var() == t[lo + 1].spec_var());
    }
    if exists|i: int| 0 <= i < t.len() - 1 && (#[trigger] t[i]).spec_var() == t[i + 1].spec_var() {
        let i = choose|i: int| 0 <= i < t.len() - 1 && (#[trigger] t[i]).spec_var() == t[i + 1].spec_var();
        assert(t[i].code() < t[i + 1].code());
        crate::lit::lemma_not_code(t[i]);
        assert(t[i + 1].0 == t[i].spec_not().0);
        assert(t[i + 1] == t[i].spec_not());
    }
}

/// Having a literal and its negation depends on the set of literals only.
pub proof fn lemma_tautology_same(t: Seq<Lit>, s: Seq<Lit>)
    requires
        is_normal_form(t, s),
    ensures
        tautology(t) == tautology(s),
{
    if tautology(t) {
        let (i, j) = choose|i: int, j: int|
            0 <= i < t.len() && 0 <= j < t.len() && #[trigger] t[i] == (#[trigger] t[j]).spec_not();
        assert(t.contains(t[i]));
        assert(t.contains(t[j]));
        assert(s.contains(t[i]));
        assert(s.contains(t[j]));
        let a = choose|a: int| 0 <= a < s.len() && s[a] == t[i];
        let b = choose|b: int| 0 <= b < s.len() && s[b] == t[j];
        assert(s[a] == s[b].spec_not());
    }
    if tautology(s) {
        let (i, j) = choose|i: int, j: int|
            0 <= i < s.len() && 0 <= j < s.len() && #[trigger] s[i] == (#[trigger] s[j]).spec_not();
        assert(s.contains(s[i]));
        assert(s.contains(s[j]));
        assert(t.contains(s[i]));
        assert(t.contains(s[j]));
        let a = choose|a: int| 0 <= a < t.len() && t[a] == s[i];
        let b = choose|b: int| 0 <= b < t.len() && t[b] == s[j];
        assert(t[a] == t[b].spec_not());
    }
}

/// Brings the clause into normal form and tells whether it is a tautology.
pub fn simplify_clause(lits: &mut Vec<Lit>) -> (r: bool)
    ensures
        final(lits)@ == normal_form(old(lits)@),
        is_normal_form(final(lits)@, old(lits)@),
        r == tautology(old(lits)@),
{
    sort_dedup(lits);
    proof {
        lemma_sorted_tautology(lits@);
        lemma_tautology_same(lits@, old(lits)@);
    }
    let len = lits.len();
    if len < 2 {
        return false;
    }
    let mut i: usize = 0;
    while i < len - 1
        invariant
            len == lits@.len(),
            len >= 2,
            lits@ == normal_form(old(lits)@),
            is_normal_form(lits@, old(lits)@),
            tautology(old(lits)@) <==> exists|i: int|
                0 <= i < lits@.len() - 1 && (#[trigger] lits@[i]).spec_var() == lits@[i + 1].spec_var(),
            forall|j: int| 0 <= j < i ==> (#[trigger] lits@[j]).spec_var() != lits@[j + 1].spec_var(),
        decreases len - i,
    {
        if lits[i].var() == lits[i + 1].var() {
            return true;
        }
        i = i + 1;
    }
    false
}

/// Bit `j` of `i`.
pub open spec fn bit_of(i: u64, j: u64) -> bool {
    (i >> j) & 1 == 1
}

/// Whether an odd number of the `k` lowest bits of `i` are set.
pub open spec fn low_parity(i: u64, k: nat) -> bool
    decreases k,
{
    if k == 0 {
        false
    } else {
        low_parity(i, (k - 1) as nat) != bit_of(i, (k - 1) as u64)
    }
}

/// The clause over `vars` whose literal `j` is negated iff bit `j` of `i` is set.
pub open spec fn pattern(vars: Seq<usize>, i: u64) -> Seq<Lit> {
    Seq::new(vars.len(), |j: int| Lit::make(vars[j] as int % 0x8000_0000, bit_of(i, j as u64)))
}

/// The clauses of the XOR of `vars` with right-hand side `rhs` among the
/// patterns below `k`: those with an even number of negations if `rhs`, with
/// an odd number if not.
pub open spec fn xor_clauses(vars: Seq<usize>, rhs: bool, k: nat) -> Seq<Seq<Lit>>
    decreases k,
{
    if k == 0 {
        Seq::empty()
    } else {
        let before = xor_clauses(vars, rhs, (k - 1) as nat);
        if low_parity((k - 1) as u64, vars.len()) != rhs {
            before.push(pattern(vars, (k - 1) as u64))
        } else {
            before
        }
    }
}

/// The literals of each clause.
pub open spec fn lits_of(cs: Seq<Clause>) -> Seq<Seq<Lit>> {
    Seq::new(cs.len(), |i: int| cs[i].lits@)
}

/// Two to the power `n`, for `n` below 64.
pub open spec fn two_to(n: u64) -> u64 {
    1u64 << n
}

/// The CNF encoding of `vars[0] ^ ... ^ vars[n - 1] = rhs`: one clause for
/// each way of negating the variables that the equation rules out.
pub fn xor_to_cnf(vars: &[usize], rhs: bool) -> (result: Vec<Clause>)
    requires
        vars@.len() < 64,
    ensures
        lits_of(result@) == xor_clauses(vars@, rhs, two_to(vars@.len() as u64) as nat),
        forall|i: int| 0 <= i < result@.len() ==> !(#[trigger] result@[i]).learned,
{
    let mut result: Vec<Clause> = Vec::new();
    let n = vars.len();
    let total_combs: u64 = 1u64 << (n as u64);
    let mut i: u64 = 0;
    while i < total_combs
        invariant
            n == vars@.len(),
            n < 64,
            0 <= i <= total_combs,
            lits_of(result@) == xor_clauses(vars@, rhs, i as nat),
            forall|j: int| 0 <= j < result@.len() ==> !(#[trigger] result@[j]).learned,
        decreases total_combs - i,
    {
        let mut odd = false;
        let mut b: usize = 0;
        while b < n
            invariant
                n == vars@.len(),
                n < 64,
                0 <= b <= n,
                odd == low_parity(i, b as nat),
            decreases n - b,
        {
            if (i >> (b as u64)) & 1 == 1 {
                odd = !odd;
            }
            b = b + 1;
        }
        if odd != rhs {
            let mut lits: Vec<Lit> = Vec::with_capacity(n);
            let mut bit_idx: usize = 0;
            while bit_idx < n
                invariant
                    n == vars@.len(),
                    n < 64,
                    0 <= bit_idx <= n,
                    lits@.len() == bit_idx,
                    forall|j: int|
                        0 <= j < bit_idx ==> #[trigger] lits@[j] == Lit::make(
                            vars@[j] as int % 0x8000_0000,
                            bit_of(i, j as u64),
                        ),
                decreases n - bit_idx,
            {
                let v = vars[bit_idx];
                let is_neg = (i >> (bit_idx as u64)) & 1 == 1;
                lits.push(Lit::new(v, is_neg));
                bit_idx = bit_idx + 1;
            }
            proof {
                assert(lits@ =~= pattern(vars@, i));
            }
            let ghost before = lits_of(result@);
            result.push(Clause { lits, learned: false });
            proof {
                assert(lits_of(result@) =~= before.push(pattern(vars@, i)));
            }
        }
        i = i + 1;
    }
    result
}

/// A pattern none of whose literals holds in `m` fixes the parity of `m`
/// over the variables: that of the bits of the pattern.
pub proof fn lemma_pattern_fails(vars: Seq<usize>, i: u64, m: Seq<bool>, k: int)
    requires
        0 <= k <= vars.len(),
        vars.len() < 64,
        forall|j: int| 0 <= j < vars.len() ==> (#[trigger] vars[j]) < m.len(),
        m.len() <= MAX_VARS,
        !clause_holds(m, pattern(vars, i)),
    ensures
        parity(m, vars.take(k)) == low_parity(i, k as nat),
    decreases k,
{
    if k > 0 {
        lemma_pattern_fails(vars, i, m, k - 1);
        let p = pattern(vars, i);
        let l = p[k - 1];
        assert(!lit_holds(m, l));
        lemma_make_parts(vars[k - 1] as int, bit_of(i, (k - 1) as u64));
        assert(vars.take(k).drop_last() =~= vars.take(k - 1));
        assert(vars.take(k).last() == vars[k - 1]);
    }
}

/// Every clause of the encoding of an XOR holds where the XOR holds.
pub proof fn lemma_xor_clauses_hold(vars: Seq<usize>, rhs: bool, k: nat, m: Seq<bool>)
    requires
        vars.len() < 64,
        forall|j: int| 0 <= j < vars.len() ==> (#[trigger] vars[j]) < m.len(),
        m.len() <= MAX_VARS,
        parity(m, vars) == rhs,
        k <= u64::MAX,
    ensures
        forall|c: int| 0 <= c < xor_clauses(vars, rhs, k).len() ==> clause_holds(m, #[trigger] xor_clauses(vars, rhs, k)[c]),
    decreases k,
{
    if k > 0 {
        lemma_xor_clauses_hold(vars, rhs, (k - 1) as nat, m);
        let before = xor_clauses(vars, rhs, (k - 1) as nat);
        let now = xor_clauses(vars, rhs, k);
        if low_parity((k - 1) as u64, vars.len()) != rhs {
            if !clause_holds(m, pattern(vars, (k - 1) as u64)) {
                lemma_pattern_fails(vars, (k - 1) as u64, m, vars.len() as int);
                assert(vars.take(vars.len() as int) =~= vars);
            }
        }
        assert forall|c: int| 0 <= c < now.len() implies clause_holds(m, #[trigger] now[c]) by {
            if c < before.len() {
                assert(now[c] == before[c]);
            }
        }
    }
}

/// The literals of the encoding name the variables of the XOR.
pub proof fn lemma_xor_clauses_range(vars: Seq<usize>, rhs: bool, k: nat, n: nat)
    requires
        forall|j: int| 0 <= j < vars.len() ==> (#[trigger] vars[j]) < n,
        n <= MAX_VARS,
        k <= u64::MAX,
    ensures
        forall|c: int|
            0 <= c < xor_clauses(vars, rhs, k).len() ==> crate::lit::lits_in_range(
                #[trigger] xor_clauses(vars, rhs, k)[c],
                n,
            ),
    decreases k,
{
    if k > 0 {
        lemma_xor_clauses_range(vars, rhs, (k - 1) as nat, n);
        let p = pattern(vars, (k - 1) as u64);
        assert forall|j: int| 0 <= j < p.len() implies (#[trigger] p[j]).spec_var() < n by {
            lemma_make_parts(vars[j] as int, bit_of((k - 1) as u64, j as u64));
        }
        let before = xor_clauses(vars, rhs, (k - 1) as nat);
        let now = xor_clauses(vars, rhs, k);
        assert forall|c: int| 0 <= c < now.len() implies crate::lit::lits_in_range(#[trigger] now[c], n) by {
            if c < before.len() {
                assert(now[c] == before[c]);
            }
        }
    }
}

/// A pattern below `k` with the parity that the equation rules out is among
/// the clauses of the equation.
pub proof fn lemma_pattern_listed(vars: Seq<usize>, rhs: bool, k: nat, i: u64)
    requires
        i < k <= u64::MAX,
        low_parity(i, vars.len()) != rhs,
    ensures
        xor_clauses(vars, rhs, k).contains(pattern(vars, i)),
    decreases k,
{
    let now = xor_clauses(vars, rhs, k);
    let before = xor_clauses(vars, rhs, (k - 1) as nat);
    if i == k - 1 {
        assert(now[now.len() - 1] == pattern(vars, i));
    } else {
        lemma_pattern_listed(vars, rhs, (k - 1) as nat, i);
        let c = choose|c: int| 0 <= c < before.len() && before[c] == pattern(vars, i);
        assert(now[c] == before[c]);
    }
}

/// Where every clause of the encoding of an XOR holds, the XOR holds.
pub proof fn lemma_xor_clauses_back(vars: Seq<usize>, rhs: bool, m: Seq<bool>)
    requires
        vars.len() < 64,
        forall|j: int| 0 <= j < vars.len() ==> (#[trigger] vars[j]) < m.len(),
        m.len() <= MAX_VARS,
        forall|c: int|
            0 <= c < xor_clauses(vars, rhs, two_to(vars.len() as u64) as nat).len() ==> clause_holds(
                m,
                #[trigger] xor_clauses(vars, rhs, two_to(vars.len() as u64) as nat)[c],
            ),
    ensures
        parity(m, vars) == rhs,
{
    let n = vars.len();
    let i = crate::preprocessing::extract::encode(m, vars, n);
    crate::preprocessing::extract::lemma_encode(m, vars, n);
    assert(vars.take(n as int) =~= vars);
    let p = pattern(vars, i);
    assert(!clause_holds(m, p)) by {
        if clause_holds(m, p) {
            let j = choose|j: int| 0 <= j < p.len() && #[trigger] lit_holds(m, p[j]);
            lemma_make_parts(vars[j] as int, bit_of(i, j as u64));
            assert(bit_of(i, j as u64) == m[vars[j] as int]);
        }
    }
    if parity(m, vars) != rhs {
        let k = two_to(n as u64) as nat;
        lemma_pattern_listed(vars, rhs, k, i);
        let all = xor_clauses(vars, rhs, k);
        let c = choose|c: int| 0 <= c < all.len() && all[c] == p;
        assert(clause_holds(m, all[c]));
    }
}

/// A clause that holds a literal with its negation holds in every model
/// that knows its variables.
pub proof fn lemma_tautology_holds(ls: Seq<Lit>, m: Seq<bool>)
    requires
        tautology(ls),
        crate::lit::lits_in_range(ls, m.len()),
    ensures
        clause_holds(m, ls),
{
    let (i, j) = choose|i: int, j: int|
        0 <= i < ls.len() && 0 <= j < ls.len() && #[trigger] ls[i] == (#[trigger] ls[j]).spec_not();
    crate::lit::lemma_not_involutive(ls[j]);
    if lit_holds(m, ls[j]) {
    } else {
        assert(lit_holds(m, ls[i]));
    }
}

} // verus!
