//! Finding XOR constraints in the clauses: a variable whose clauses force
//! it, for every assignment of the few other variables in them, to the sum
//! of these over GF(2), up to a constant.

use std::collections::{HashMap, HashSet};
use vstd::prelude::*;
use crate::lit::{clause_holds, lit_holds, lits_in_range, Clause, Lit};
use crate::preprocessing::subst::{bit_of, lits_of, low_parity, two_to};
use crate::preprocessing::{parity, XorConstraint};

verus! {

/// The assignment that row `i` of the truth table gives to the first `k`
/// inputs: input `j` takes bit `j` of `i`. A variable that is listed more
/// than once takes the value of its last place.
pub open spec fn row_assignment(inputs: Seq<usize>, i: u64, k: nat) -> Map<usize, bool>
    decreases k,
{
    if k == 0 {
        Map::empty()
    } else {
        row_assignment(inputs, i, (k - 1) as nat).insert(inputs[k - 1], bit_of(i, (k - 1) as u64))
    }
}

/// Literal `l` is true under the assignment `a` of the inputs.
pub open spec fn lit_sat(a: Map<usize, bool>, l: Lit) -> bool {
    a.contains_key(l.spec_var() as usize) && a[l.spec_var() as usize] != l.spec_is_neg()
}

/// Some literal among the first `k` of the clause, of a variable other than
/// `target`, is true under `a`.
pub open spec fn sat_by_inputs(a: Map<usize, bool>, ls: Seq<Lit>, target: usize, k: int) -> bool {
    exists|j: int| 0 <= j < k && (#[trigger] ls[j]).spec_var() != target && lit_sat(a, ls[j])
}

/// Among the first `k` literals of the clause is the literal of `target`
/// that is negated iff `neg`.
pub open spec fn names(ls: Seq<Lit>, target: usize, neg: bool, k: int) -> bool {
    exists|j: int| 0 <= j < k && (#[trigger] ls[j]).spec_var() == target && ls[j].spec_is_neg() == neg
}

/// What a clause says of the target under an assignment of the inputs.
#[derive(Debug, Copy, Clone, PartialEq, Eq, Structural)]
pub enum Effect {
    /// The clause holds whatever the target is: the inputs satisfy it, or it
    /// holds the target together with its negation.
    Nothing,
    /// The clause is satisfied only if the target is true.
    ForcesTrue,
    /// The clause is satisfied only if the target is false.
    ForcesFalse,
    /// The clause cannot be satisfied.
    Dead,
}

/// The effect of the clause `ls` under the assignment `a`.
pub open spec fn effect(a: Map<usize, bool>, ls: Seq<Lit>, target: usize) -> Effect {
    let pos = names(ls, target, false, ls.len() as int);
    let neg = names(ls, target, true, ls.len() as int);
    if sat_by_inputs(a, ls, target, ls.len() as int) || (pos && neg) {
        Effect::Nothing
    } else if pos {
        Effect::ForcesTrue
    } else if neg {
        Effect::ForcesFalse
    } else {
        Effect::Dead
    }
}

/// Some clause among the first `k` listed in `rel` has the effect `e` in row `i`.
pub open spec fn some_effect(
    cs: Seq<Seq<Lit>>,
    rel: Seq<usize>,
    inputs: Seq<usize>,
    target: usize,
    i: u64,
    k: int,
    e: Effect,
) -> bool {
    exists|t: int|
        0 <= t < k && effect(row_assignment(inputs, i, inputs.len()), (#[trigger] cs[rel[t] as int]), target)
            == e
}

/// What row `i` says of the target: `Some(b)` if the clauses force the
/// target one way only and `b` tells whether that value differs from the sum
/// of the inputs; `None` if they force it both ways or not at all, or a
/// clause cannot be satisfied.
pub open spec fn row_relation(cs: Seq<Seq<Lit>>, rel: Seq<usize>, inputs: Seq<usize>, target: usize, i: u64) -> Option<
    bool,
> {
    let k = rel.len() as int;
    let t = some_effect(cs, rel, inputs, target, i, k, Effect::ForcesTrue);
    let f = some_effect(cs, rel, inputs, target, i, k, Effect::ForcesFalse);
    if some_effect(cs, rel, inputs, target, i, k, Effect::Dead) || t == f {
        None
    } else {
        Some(t != low_parity(i, inputs.len()))
    }
}

/// Every row of the truth table below `limit` relates the target to the sum
/// of the inputs by the constant `b`.
pub open spec fn is_xor_upto(
    cs: Seq<Seq<Lit>>,
    rel: Seq<usize>,
    inputs: Seq<usize>,
    target: usize,
    b: bool,
    limit: u64,
) -> bool {
    forall|i: u64| i < limit ==> #[trigger] row_relation(cs, rel, inputs, target, i) == Some(b)
}

/// The assignment of row `i` of the truth table over `inputs`, and the sum
/// of its values over GF(2).
pub fn build_row(inputs: &[usize], i: u64) -> (r: (HashMap<usize, bool>, bool))
    requires
        inputs@.len() < 64,
    ensures
        r.0@ == row_assignment(inputs@, i, inputs@.len()),
        r.1 == low_parity(i, inputs@.len()),
{
    broadcast use vstd::std_specs::hash::group_hash_axioms;

    let num_inputs = inputs.len();
    let mut input_parity = false;
    let mut current_assignment: HashMap<usize, bool> = HashMap::with_capacity(num_inputs);
    let mut bit: usize = 0;
    while bit < num_inputs
        invariant
            num_inputs == inputs@.len(),
            num_inputs < 64,
            0 <= bit <= num_inputs,
            input_parity == low_parity(i, bit as nat),
            current_assignment@ == row_assignment(inputs@, i, bit as nat),
        decreases num_inputs - bit,
    {
        let inp_var = inputs[bit];
        let val = (i >> (bit as u64)) & 1 == 1;
        current_assignment.insert(inp_var, val);
        if val {
            input_parity = !input_parity;
        }
        bit = bit + 1;
    }
    (current_assignment, input_parity)
}

/// What the clause says of the target under the assignment of the inputs.
pub fn clause_effect(clause: &Clause, current_assignment: &HashMap<usize, bool>, target: usize) -> (e: Effect)
    ensures
        e == effect(current_assignment@, clause.lits@, target),
{
    broadcast use vstd::std_specs::hash::group_hash_axioms;

    let ghost a = current_assignment@;
    let ghost ls = clause.lits@;
    let mut satisfied_by_inputs = false;
    let mut pos = false;
    let mut neg = false;
    let mut k: usize = 0;
    while k < clause.lits.len() && !satisfied_by_inputs
        invariant
            ls == clause.lits@,
            a == current_assignment@,
            0 <= k <= ls.len(),
            !satisfied_by_inputs ==> !sat_by_inputs(a, ls, target, k as int),
            !satisfied_by_inputs ==> pos == names(ls, target, false, k as int) && neg == names(ls, target, true, k as int),
            satisfied_by_inputs ==> sat_by_inputs(a, ls, target, ls.len() as int),
        decreases clause.lits.len() - k,
    {
        let lit = clause.lits[k];
        let ghost old_pos = pos;
        let ghost old_neg = neg;
        if lit.var() == target {
            if lit.is_neg() {
                neg = true;
            } else {
                pos = true;
            }
        } else {
            let v = lit.var();
            match current_assignment.get(&v) {
                Some(val) => {
                    if (*val && !lit.is_neg()) || (!*val && lit.is_neg()) {
                        satisfied_by_inputs = true;
                        proof {
                            assert(0 <= k < ls.len() && ls[k as int].spec_var() != target && lit_sat(a, ls[k as int]));
                        }
                    }
                },
                None => {},
            }
        }
        proof {
            if !satisfied_by_inputs {
                if sat_by_inputs(a, ls, target, k + 1) {
                    let j = choose|j: int| 0 <= j < k + 1 && (#[trigger] ls[j]).spec_var() != target && lit_sat(a, ls[j]);
                    if j < k {
                        assert(sat_by_inputs(a, ls, target, k as int));
                    }
                }
                lemma_names_step(ls, target, false, k as int);
                lemma_names_step(ls, target, true, k as int);
            }
        }
        k = k + 1;
    }
    if satisfied_by_inputs || (pos && neg) {
        Effect::Nothing
    } else if pos {
        Effect::ForcesTrue
    } else if neg {
        Effect::ForcesFalse
    } else {
        Effect::Dead
    }
}

/// Whether the first `k + 1` literals hold the literal of the target is
/// whether the first `k` hold it or literal `k` is it.
pub proof fn lemma_names_step(ls: Seq<Lit>, target: usize, neg: bool, k: int)
    requires
        0 <= k < ls.len(),
    ensures
        names(ls, target, neg, k + 1) == (names(ls, target, neg, k) || (ls[k].spec_var() == target && ls[k].spec_is_neg()
            == neg)),
{
    if names(ls, target, neg, k + 1) {
        let j = choose|j: int| 0 <= j < k + 1 && (#[trigger] ls[j]).spec_var() == target && ls[j].spec_is_neg() == neg;
        if j < k {
            assert(names(ls, target, neg, k));
        }
    }
    if names(ls, target, neg, k) {
        let j = choose|j: int| 0 <= j < k && (#[trigger] ls[j]).spec_var() == target && ls[j].spec_is_neg() == neg;
        assert(0 <= j < k + 1 && ls[j].spec_var() == target && ls[j].spec_is_neg() == neg);
    }
    if ls[k].spec_var() == target && ls[k].spec_is_neg() == neg {
        assert(0 <= k < k + 1 && ls[k].spec_var() == target && ls[k].spec_is_neg() == neg);
    }
}

/// What row `i` of the truth table says of the target.
pub fn check_row(
    target: usize,
    inputs: &[usize],
    relevant_clause_indices: &[usize],
    clauses: &Vec<Clause>,
    i: u64,
) -> (r: Option<bool>)
    requires
        inputs@.len() < 64,
        forall|t: int|
            0 <= t < relevant_clause_indices@.len() ==> (#[trigger] relevant_clause_indices@[t]) < clauses@.len(),
    ensures
        r == row_relation(lits_of(clauses@), relevant_clause_indices@, inputs@, target, i),
{
    let ghost rel = relevant_clause_indices@;
    let (current_assignment, input_parity) = build_row(inputs, i);
    let ghost a = current_assignment@;
    let mut forced_true = false;
    let mut forced_false = false;
    let mut t: usize = 0;
    while t < relevant_clause_indices.len()
        invariant
            rel == relevant_clause_indices@,
            forall|t: int| 0 <= t < rel.len() ==> (#[trigger] rel[t]) < clauses@.len(),
            0 <= t <= rel.len(),
            a == current_assignment@,
            a == row_assignment(inputs@, i, inputs@.len()),
            forced_true == some_effect(lits_of(clauses@), rel, inputs@, target, i, t as int, Effect::ForcesTrue),
            forced_false == some_effect(lits_of(clauses@), rel, inputs@, target, i, t as int, Effect::ForcesFalse),
            !some_effect(lits_of(clauses@), rel, inputs@, target, i, t as int, Effect::Dead),
        decreases relevant_clause_indices.len() - t,
    {
        let c_idx = relevant_clause_indices[t];
        let e = clause_effect(&clauses[c_idx], &current_assignment, target);
        proof {
            lemma_effect_step(lits_of(clauses@), rel, inputs@, target, i, t as int, Effect::ForcesTrue);
            lemma_effect_step(lits_of(clauses@), rel, inputs@, target, i, t as int, Effect::ForcesFalse);
            lemma_effect_step(lits_of(clauses@), rel, inputs@, target, i, t as int, Effect::Dead);
        }
        match e {
            Effect::Nothing => {},
            Effect::ForcesTrue => {
                forced_true = true;
            },
            Effect::ForcesFalse => {
                forced_false = true;
            },
            Effect::Dead => {
                proof {
                    lemma_effect_more(lits_of(clauses@), rel, inputs@, target, i, t + 1, Effect::Dead);
                }
                return None;
            },
        }
        t = t + 1;
    }
    if forced_true && forced_false {
        return None;
    }
    if !forced_true && !forced_false {
        return None;
    }
    let target_val = forced_true;
    Some(target_val ^ input_parity)
}

/// Tells whether the clauses listed in `relevant_clause_indices` make
/// `target` the sum over GF(2) of `inputs`, up to a constant, and returns
/// that constant: `target ^ inputs[0] ^ ... = constant`.
pub fn check_semantic_xor_logic(
    target: usize,
    inputs: &[usize],
    relevant_clause_indices: &[usize],
    clauses: &Vec<Clause>,
) -> (r: Option<bool>)
    requires
        inputs@.len() < 64,
        forall|t: int|
            0 <= t < relevant_clause_indices@.len() ==> (#[trigger] relevant_clause_indices@[t]) < clauses@.len(),
    ensures
        forall|b: bool|
            r == Some(b) <==> is_xor_upto(
                lits_of(clauses@),
                relevant_clause_indices@,
                inputs@,
                target,
                b,
                two_to(inputs@.len() as u64),
            ),
{
    let num_inputs = inputs.len();
    let limit: u64 = 1u64 << (num_inputs as u64);
    let ghost rel = relevant_clause_indices@;
    proof {
        assert(limit >= 1) by (bit_vector)
            requires
                limit == 1u64 << (num_inputs as u64),
                num_inputs < 64,
        ;
    }
    let mut expected_relation: Option<bool> = None;
    let mut i: u64 = 0;
    while i < limit
        invariant
            num_inputs == inputs@.len(),
            num_inputs < 64,
            limit == two_to(inputs@.len() as u64),
            limit >= 1,
            rel == relevant_clause_indices@,
            forall|t: int| 0 <= t < rel.len() ==> (#[trigger] rel[t]) < clauses@.len(),
            0 <= i <= limit,
            i == 0 <==> expected_relation is None,
            expected_relation is Some ==> is_xor_upto(lits_of(clauses@), rel, inputs@, target, expected_relation->0, i),
        decreases limit - i,
    {
        match check_row(target, inputs, relevant_clause_indices, clauses, i) {
            None => {
                return None;
            },
            Some(relation) => {
                match expected_relation {
                    Some(existing_rel) => {
                        if existing_rel != relation {
                            proof {
                                assert(row_relation(lits_of(clauses@), rel, inputs@, target, 0) == Some(existing_rel));
                            }
                            return None;
                        }
                    },
                    None => {
                        expected_relation = Some(relation);
                    },
                }
            },
        }
        i = i + 1;
    }
    proof {
        assert(row_relation(lits_of(clauses@), rel, inputs@, target, 0) == Some(expected_relation->0));
    }
    expected_relation
}

/// An effect found among the first `k` clauses is found among all.
pub proof fn lemma_effect_more(
    cs: Seq<Seq<Lit>>,
    rel: Seq<usize>,
    inputs: Seq<usize>,
    target: usize,
    i: u64,
    k: int,
    e: Effect,
)
    requires
        0 <= k <= rel.len(),
        some_effect(cs, rel, inputs, target, i, k, e),
    ensures
        some_effect(cs, rel, inputs, target, i, rel.len() as int, e),
{
    let a = row_assignment(inputs, i, inputs.len());
    let t = choose|t: int| 0 <= t < k && effect(a, (#[trigger] cs[rel[t] as int]), target) == e;
    assert(0 <= t < rel.len() && effect(a, cs[rel[t] as int], target) == e);
}

/// Whether any of the first `k + 1` clauses has the effect `e` is whether
/// any of the first `k` has it or clause `k` has it.
pub proof fn lemma_effect_step(
    cs: Seq<Seq<Lit>>,
    rel: Seq<usize>,
    inputs: Seq<usize>,
    target: usize,
    i: u64,
    k: int,
    e: Effect,
)
    requires
        0 <= k < rel.len(),
    ensures
        some_effect(cs, rel, inputs, target, i, k + 1, e) == (some_effect(cs, rel, inputs, target, i, k, e)
            || effect(row_assignment(inputs, i, inputs.len()), cs[rel[k] as int], target) == e),
{
    let a = row_assignment(inputs, i, inputs.len());
    if some_effect(cs, rel, inputs, target, i, k + 1, e) {
        let t = choose|t: int| 0 <= t < k + 1 && effect(a, (#[trigger] cs[rel[t] as int]), target) == e;
        if t < k {
            assert(some_effect(cs, rel, inputs, target, i, k, e));
        }
    }
    if some_effect(cs, rel, inputs, target, i, k, e) {
        let t = choose|t: int| 0 <= t < k && effect(a, (#[trigger] cs[rel[t] as int]), target) == e;
        assert(0 <= t < k + 1 && effect(a, cs[rel[t] as int], target) == e);
    }
    if effect(a, cs[rel[k] as int], target) == e {
        assert(0 <= k < k + 1 && effect(a, cs[rel[k] as int], target) == e);
    }
}

/// The row of the truth table that agrees with `m` on the first `k` inputs.
pub open spec fn encode(m: Seq<bool>, inputs: Seq<usize>, k: nat) -> u64
    decreases k,
{
    if k == 0 {
        0
    } else {
        let r = encode(m, inputs, (k - 1) as nat);
        if m[inputs[k - 1] as int] {
            r | (1u64 << ((k - 1) as u64))
        } else {
            r
        }
    }
}

pub proof fn lemma_encode(m: Seq<bool>, inputs: Seq<usize>, k: nat)
    requires
        k <= inputs.len(),
        k < 64,
    ensures
        encode(m, inputs, k) < two_to(k as u64),
        forall|j: int| 0 <= j < k ==> #[trigger] bit_of(encode(m, inputs, k), j as u64) == m[inputs[j] as int],
        low_parity(encode(m, inputs, k), k) == parity(m, inputs.take(k as int)),
    decreases k,
{
    if k == 0 {
        assert(0u64 < (1u64 << 0u64)) by (bit_vector);
        assert(inputs.take(0) =~= Seq::<usize>::empty());
    } else {
        let k1 = (k - 1) as u64;
        let r = encode(m, inputs, (k - 1) as nat);
        let e = encode(m, inputs, k);
        lemma_encode(m, inputs, (k - 1) as nat);
        assert(r < (1u64 << k1));
        assert(r < (1u64 << ((k1 + 1) as u64)) && (r | (1u64 << k1)) < (1u64 << ((k1 + 1) as u64)) && ((r >> k1) & 1
            != 1) && (((r | (1u64 << k1)) >> k1) & 1 == 1)) by (bit_vector)
            requires
                r < (1u64 << k1),
                k1 < 63,
        ;
        assert forall|j: int| 0 <= j < k implies #[trigger] bit_of(e, j as u64) == m[inputs[j] as int] by {
            if j < k - 1 {
                let ju = j as u64;
                assert(bit_of(r, ju) == m[inputs[j] as int]);
                assert((((r | (1u64 << k1)) >> ju) & 1 == 1) == ((r >> ju) & 1 == 1)) by (bit_vector)
                    requires
                        ju < k1,
                        k1 < 63,
                ;
            }
        }
        lemma_low_parity_same(r, e, (k - 1) as nat);
        assert(inputs.take(k as int).drop_last() =~= inputs.take(k - 1));
        assert(inputs.take(k as int).last() == inputs[k - 1]);
    }
}

/// Numbers with the same `k` lowest bits have the same parity of these.
pub proof fn lemma_low_parity_same(a: u64, b: u64, k: nat)
    requires
        forall|j: int| 0 <= j < k ==> #[trigger] bit_of(a, j as u64) == bit_of(b, j as u64),
    ensures
        low_parity(a, k) == low_parity(b, k),
    decreases k,
{
    if k > 0 {
        lemma_low_parity_same(a, b, (k - 1) as nat);
        assert(bit_of(a, (k - 1) as u64) == bit_of(b, (k - 1) as u64));
    }
}

/// No input is listed twice.
pub open spec fn no_repeats(inputs: Seq<usize>) -> bool {
    forall|i: int, j: int| 0 <= i < j < inputs.len() ==> inputs[i] != inputs[j]
}

/// With no input listed twice, the assignment of a row gives input `j` bit
/// `j`, and gives a value to the inputs only.
pub proof fn lemma_row_assignment(inputs: Seq<usize>, i: u64, k: nat)
    requires
        k <= inputs.len(),
        no_repeats(inputs),
    ensures
        forall|j: int|
            0 <= j < k ==> row_assignment(inputs, i, k).contains_key(#[trigger] inputs[j]) && row_assignment(
                inputs,
                i,
                k,
            )[inputs[j]] == bit_of(i, j as u64),
        forall|v: usize|
            row_assignment(inputs, i, k).contains_key(v) ==> exists|j: int| 0 <= j < k && #[trigger] inputs[j] == v,
    decreases k,
{
    if k > 0 {
        lemma_row_assignment(inputs, i, (k - 1) as nat);
        let before = row_assignment(inputs, i, (k - 1) as nat);
        let now = row_assignment(inputs, i, k);
        assert forall|j: int| 0 <= j < k implies now.contains_key(#[trigger] inputs[j]) && now[inputs[j]] == bit_of(
            i,
            j as u64,
        ) by {
            if j < k - 1 {
                assert(inputs[j] != inputs[k - 1]);
                assert(before.contains_key(inputs[j]));
            }
        }
        assert forall|v: usize| now.contains_key(v) implies exists|j: int| 0 <= j < k && #[trigger] inputs[j] == v by {
            if v == inputs[k - 1] {
                assert(0 <= k - 1 < k && inputs[k - 1] == v);
            } else {
                assert(before.contains_key(v));
                let j = choose|j: int| 0 <= j < k - 1 && #[trigger] inputs[j] == v;
                assert(0 <= j < k && inputs[j] == v);
            }
        }
    }
}

/// Every literal of the clause is of the target or of an input.
pub open spec fn covered(ls: Seq<Lit>, inputs: Seq<usize>, target: usize) -> bool {
    forall|k: int|
        0 <= k < ls.len() ==> (#[trigger] ls[k]).spec_var() == target || inputs.contains(ls[k].spec_var() as usize)
}

/// A clause that the inputs do not satisfy and that holds in a model that
/// agrees with the row holds by a literal of the target.
pub proof fn lemma_forced(ls: Seq<Lit>, inputs: Seq<usize>, target: usize, i: u64, m: Seq<bool>)
    requires
        no_repeats(inputs),
        forall|j: int| 0 <= j < inputs.len() ==> #[trigger] bit_of(i, j as u64) == m[inputs[j] as int],
        covered(ls, inputs, target),
        clause_holds(m, ls),
        target < m.len(),
        !sat_by_inputs(row_assignment(inputs, i, inputs.len()), ls, target, ls.len() as int),
    ensures
        names(ls, target, !m[target as int], ls.len() as int),
{
    let a = row_assignment(inputs, i, inputs.len());
    lemma_row_assignment(inputs, i, inputs.len());
    let k = choose|k: int| 0 <= k < ls.len() && #[trigger] lit_holds(m, ls[k]);
    let l = ls[k];
    if l.spec_var() != target {
        assert(inputs.contains(l.spec_var() as usize));
        let j = choose|j: int| 0 <= j < inputs.len() && inputs[j] == l.spec_var() as usize;
        assert(a.contains_key(inputs[j]) && a[inputs[j]] == bit_of(i, j as u64));
        assert(lit_sat(a, l));
        assert(0 <= k < ls.len() && ls[k].spec_var() != target && lit_sat(a, ls[k]));
        assert(false);
    }
    assert(0 <= k < ls.len() && ls[k].spec_var() == target && ls[k].spec_is_neg() == !m[target as int]);
}

/// The clauses listed in `rel` hold in `m` and name the target and the
/// inputs only.
pub open spec fn defining_clauses(cs: Seq<Seq<Lit>>, rel: Seq<usize>, inputs: Seq<usize>, target: usize, m: Seq<bool>) -> bool {
    forall|t: int|
        0 <= t < rel.len() ==> {
            let ls = (#[trigger] cs[rel[t] as int]);
            &&& rel[t] < cs.len()
            &&& clause_holds(m, ls)
            &&& covered(ls, inputs, target)
        }
}

/// What the truth-table check finds holds in every model of the clauses it
/// looked at: the target differs from the sum of the inputs iff `b`.
pub proof fn lemma_xor_sound(
    cs: Seq<Seq<Lit>>,
    rel: Seq<usize>,
    inputs: Seq<usize>,
    target: usize,
    b: bool,
    m: Seq<bool>,
)
    requires
        inputs.len() < 64,
        no_repeats(inputs),
        is_xor_upto(cs, rel, inputs, target, b, two_to(inputs.len() as u64)),
        defining_clauses(cs, rel, inputs, target, m),
        target < m.len(),
    ensures
        (m[target as int] != parity(m, inputs)) == b,
{
    let k = inputs.len();
    let i = encode(m, inputs, k);
    lemma_encode(m, inputs, k);
    assert(inputs.take(k as int) =~= inputs);
    assert(row_relation(cs, rel, inputs, target, i) == Some(b));
    let a = row_assignment(inputs, i, k);
    let ft = some_effect(cs, rel, inputs, target, i, rel.len() as int, Effect::ForcesTrue);
    let ff = some_effect(cs, rel, inputs, target, i, rel.len() as int, Effect::ForcesFalse);
    if ft {
        let t = choose|t: int|
            0 <= t < rel.len() && effect(a, (#[trigger] cs[rel[t] as int]), target) == Effect::ForcesTrue;
        let ls = cs[rel[t] as int];
        lemma_forced(ls, inputs, target, i, m);
    } else {
        assert(ff);
        let t = choose|t: int|
            0 <= t < rel.len() && effect(a, (#[trigger] cs[rel[t] as int]), target) == Effect::ForcesFalse;
        let ls = cs[rel[t] as int];
        lemma_forced(ls, inputs, target, i, m);
    }
}

/// Every clause listed in `rel` names `var` and the variables of `list` only.
pub open spec fn all_covered(cs: Seq<Seq<Lit>>, rel: Seq<usize>, list: Seq<usize>, var: usize, upto: int) -> bool {
    forall|t: int| 0 <= t < upto ==> covered((#[trigger] cs[rel[t] as int]), list, var)
}

/// The list of variables after the first `k` literals of a clause were
/// looked at: a variable other than `var` that the list does not hold yet is
/// added at its end.
pub open spec fn seen_in(ls: Seq<Lit>, var: usize, list: Seq<usize>, k: int) -> Seq<usize>
    decreases k,
{
    if k <= 0 {
        list
    } else {
        let prev = seen_in(ls, var, list, k - 1);
        let v = ls[k - 1].spec_var() as usize;
        if v != var && !prev.contains(v) {
            prev.push(v)
        } else {
            prev
        }
    }
}

/// The variables other than `var` in the first `t` clauses listed in `rel`,
/// each once, in the order in which they first occur.
pub open spec fn neighbors_of(cs: Seq<Seq<Lit>>, rel: Seq<usize>, var: usize, t: int) -> Seq<usize>
    decreases t,
{
    if t <= 0 {
        Seq::empty()
    } else {
        let ls = cs[rel[t - 1] as int];
        seen_in(ls, var, neighbors_of(cs, rel, var, t - 1), ls.len() as int)
    }
}

/// The variables other than `var` in the clauses listed in `rel`: as a
/// list, each once, in the order in which they first occur, and as a set.
pub fn collect_neighbors(clauses: &Vec<Clause>, rel: &Vec<usize>, var: usize, num_vars: usize) -> (r: (
    Vec<usize>,
    HashSet<usize>,
))
    requires
        forall|t: int| 0 <= t < rel@.len() ==> (#[trigger] rel@[t]) < clauses@.len(),
        forall|c: int| 0 <= c < clauses@.len() ==> lits_in_range((#[trigger] clauses@[c]).lits@, num_vars as nat),
    ensures
        r.0@ == neighbors_of(lits_of(clauses@), rel@, var, rel@.len() as int),
        forall|v: usize| #[trigger] r.1@.contains(v) <==> r.0@.contains(v),
        no_repeats(r.0@),
        forall|j: int| 0 <= j < r.0@.len() ==> (#[trigger] r.0@[j]) < num_vars && r.0@[j] != var,
        all_covered(lits_of(clauses@), rel@, r.0@, var, rel@.len() as int),
{
    broadcast use vstd::std_specs::hash::group_hash_axioms;

    let mut list: Vec<usize> = Vec::new();
    let mut seen: HashSet<usize> = HashSet::new();
    let mut t: usize = 0;
    while t < rel.len()
        invariant
            0 <= t <= rel@.len(),
            list@ == neighbors_of(lits_of(clauses@), rel@, var, t as int),
            forall|v: usize| #[trigger] seen@.contains(v) <==> list@.contains(v),
            forall|t: int| 0 <= t < rel@.len() ==> (#[trigger] rel@[t]) < clauses@.len(),
            forall|c: int| 0 <= c < clauses@.len() ==> lits_in_range((#[trigger] clauses@[c]).lits@, num_vars as nat),
            no_repeats(list@),
            forall|j: int| 0 <= j < list@.len() ==> (#[trigger] list@[j]) < num_vars && list@[j] != var,
            all_covered(lits_of(clauses@), rel@, list@, var, t as int),
        decreases rel.len() - t,
    {
        let c_idx = rel[t];
        let ghost ls = clauses@[c_idx as int].lits@;
        let mut k: usize = 0;
        while k < clauses[c_idx].lits.len()
            invariant
                c_idx == rel@[t as int],
                c_idx < clauses@.len(),
                ls == clauses@[c_idx as int].lits@,
                lits_in_range(ls, num_vars as nat),
                0 <= t < rel@.len(),
                0 <= k <= ls.len(),
                list@ == seen_in(ls, var, neighbors_of(lits_of(clauses@), rel@, var, t as int), k as int),
                forall|v: usize| #[trigger] seen@.contains(v) <==> list@.contains(v),
                forall|t: int| 0 <= t < rel@.len() ==> (#[trigger] rel@[t]) < clauses@.len(),
                no_repeats(list@),
                forall|j: int| 0 <= j < list@.len() ==> (#[trigger] list@[j]) < num_vars && list@[j] != var,
                all_covered(lits_of(clauses@), rel@, list@, var, t as int),
                forall|j: int|
                    0 <= j < k ==> (#[trigger] ls[j]).spec_var() == var || list@.contains(ls[j].spec_var() as usize),
            decreases clauses[c_idx as int].lits.len() - k,
        {
            let lit = clauses[c_idx].lits[k];
            let v = lit.var();
            if v != var {
                let ghost before = list@;
                let ghost seen_before = seen@;
                let fresh = seen.insert(v);
                if fresh {
                    list.push(v);
                    proof {
                        lemma_covered_more(lits_of(clauses@), rel@, before, v, var, t as int);
                        assert forall|j: int| 0 <= j < k implies (#[trigger] ls[j]).spec_var() == var || list@.contains(
                            ls[j].spec_var() as usize,
                        ) by {
                            if ls[j].spec_var() != var {
                                let e = choose|e: int| 0 <= e < before.len() && before[e] == ls[j].spec_var() as usize;
                                assert(list@[e] == ls[j].spec_var() as usize);
                            }
                        }
                        assert(list@[before.len() as int] == v);
                        assert forall|w: usize| #[trigger] seen@.contains(w) <==> list@.contains(w) by {
                            if seen@.contains(w) && w != v {
                                assert(seen_before.contains(w));
                                let e = choose|e: int| 0 <= e < before.len() && before[e] == w;
                                assert(list@[e] == w);
                            }
                            if list@.contains(w) {
                                let e = choose|e: int| 0 <= e < list@.len() && list@[e] == w;
                                if e < before.len() {
                                    assert(before[e] == w);
                                    assert(before.contains(w));
                                }
                            }
                        }
                    }
                } else {
                    proof {
                        assert(seen_before.contains(v));
                        assert(before.contains(v));
                        assert forall|w: usize| #[trigger] seen@.contains(w) <==> list@.contains(w) by {
                            assert(seen@.contains(w) <==> seen_before.contains(w));
                        }
                    }
                }
            }
            k = k + 1;
        }
        t = t + 1;
    }
    (list, seen)
}

/// Clauses that name `var` and the variables of a list only still do when
/// the list grows.
pub proof fn lemma_covered_more(cs: Seq<Seq<Lit>>, rel: Seq<usize>, list: Seq<usize>, v: usize, var: usize, upto: int)
    requires
        all_covered(cs, rel, list, var, upto),
    ensures
        all_covered(cs, rel, list.push(v), var, upto),
{
    assert forall|t: int| 0 <= t < upto implies covered((#[trigger] cs[rel[t] as int]), list.push(v), var) by {
        let ls = cs[rel[t] as int];
        assert(covered(ls, list, var));
        assert forall|k: int| 0 <= k < ls.len() implies (#[trigger] ls[k]).spec_var() == var || list.push(v).contains(
            ls[k].spec_var() as usize,
        ) by {
            if ls[k].spec_var() != var {
                let e = choose|e: int| 0 <= e < list.len() && list[e] == ls[k].spec_var() as usize;
                assert(list.push(v)[e] == ls[k].spec_var() as usize);
            }
        }
    }
}

/// The index `i`, once for each literal of variable `v` among the first `k`
/// of the clause.
pub open spec fn occurrences(ls: Seq<Lit>, v: usize, k: int, i: usize) -> Seq<usize>
    decreases k,
{
    if k <= 0 {
        Seq::empty()
    } else if ls[k - 1].spec_var() == v {
        occurrences(ls, v, k - 1, i).push(i)
    } else {
        occurrences(ls, v, k - 1, i)
    }
}

/// The indices of the clauses of at most six literals, among the first
/// `upto`, that name variable `v`, in order, once for each literal of `v`.
pub open spec fn adjacency(cs: Seq<Seq<Lit>>, v: usize, upto: int) -> Seq<usize>
    decreases upto,
{
    if upto <= 0 {
        Seq::empty()
    } else {
        let ls = cs[upto - 1];
        if ls.len() <= 6 {
            adjacency(cs, v, upto - 1) + occurrences(ls, v, ls.len() as int, (upto - 1) as usize)
        } else {
            adjacency(cs, v, upto - 1)
        }
    }
}

/// The constant by which the clauses listed in `rel` make `target` the sum
/// of `inputs`, if they do.
pub open spec fn xor_constant(cs: Seq<Seq<Lit>>, rel: Seq<usize>, inputs: Seq<usize>, target: usize) -> Option<bool> {
    let limit = two_to(inputs.len() as u64);
    if is_xor_upto(cs, rel, inputs, target, true, limit) {
        Some(true)
    } else if is_xor_upto(cs, rel, inputs, target, false, limit) {
        Some(false)
    } else {
        None
    }
}

/// The constraint that has `var` as its output, if there is one: the
/// clauses of at most six literals that name `var` name between two and four
/// other variables and make `var` their sum up to a constant.
pub open spec fn constraint_at(cs: Seq<Seq<Lit>>, var: usize) -> Option<(Seq<usize>, bool)> {
    let rel = adjacency(cs, var, cs.len() as int);
    let inputs = neighbors_of(cs, rel, var, rel.len() as int);
    if rel.len() > 0 && 2 <= inputs.len() <= 4 {
        match xor_constant(cs, rel, inputs, var) {
            Some(b) => Some((inputs.push(var), b)),
            None => None,
        }
    } else {
        None
    }
}

/// The constraints with an output among the first `upto` variables, in the
/// order of their outputs.
pub open spec fn constraints_upto(cs: Seq<Seq<Lit>>, upto: int) -> Seq<(Seq<usize>, bool)>
    decreases upto,
{
    if upto <= 0 {
        Seq::empty()
    } else {
        match constraint_at(cs, (upto - 1) as usize) {
            Some(g) => constraints_upto(cs, upto - 1).push(g),
            None => constraints_upto(cs, upto - 1),
        }
    }
}

/// Clause `c` is among the clauses of the constraint with output `var` and names
/// the output and the inputs of that constraint only.
pub open spec fn in_constraint(cs: Seq<Seq<Lit>>, var: usize, c: int) -> bool {
    let rel = adjacency(cs, var, cs.len() as int);
    let inputs = neighbors_of(cs, rel, var, rel.len() as int);
    rel.contains(c as usize) && covered(cs[c], inputs, var)
}

/// Clause `c` is used up by a constraint with an output among the first `upto` variables.
pub open spec fn used_by(cs: Seq<Seq<Lit>>, c: int, upto: int) -> bool
    decreases upto,
{
    if upto <= 0 {
        false
    } else {
        used_by(cs, c, upto - 1) || (constraint_at(cs, (upto - 1) as usize) is Some && in_constraint(
            cs,
            (upto - 1) as usize,
            c,
        ))
    }
}

/// The variables and the right-hand side of each constraint.
pub open spec fn xor_views(xors: Seq<XorConstraint>) -> Seq<(Seq<usize>, bool)> {
    Seq::new(xors.len(), |x: int| (xors[x].vars@, xors[x].rhs))
}

/// Every clause holds in `m`.
pub open spec fn all_hold(m: Seq<bool>, clauses: Seq<Clause>) -> bool {
    forall|c: int| 0 <= c < clauses.len() ==> clause_holds(m, (#[trigger] clauses[c]).lits@)
}

/// The constraint names between three and five variables below `n`, none twice.
pub open spec fn xor_ok(x: XorConstraint, n: nat) -> bool {
    &&& 3 <= x.vars@.len() <= 5
    &&& no_repeats(x.vars@)
    &&& forall|j: int| 0 <= j < x.vars@.len() ==> (#[trigger] x.vars@[j]) < n
}

/// The clause holds in every assignment of `n` variables in which the
/// sum of `vars` is `rhs`.
pub open spec fn implies_clause(vars: Seq<usize>, rhs: bool, ls: Seq<Lit>, n: nat) -> bool {
    forall|m: Seq<bool>| m.len() == n && parity(m, vars) == rhs ==> #[trigger] clause_holds(m, ls)
}

/// One of the constraints implies the clause.
pub open spec fn implied_by_some(xors: Seq<XorConstraint>, ls: Seq<Lit>, n: nat) -> bool {
    exists|x: int| 0 <= x < xors.len() && implies_clause((#[trigger] xors[x]).vars@, xors[x].rhs, ls, n)
}

/// A constraint that the truth-table check found implies each of the
/// clauses that the check looked at.
pub proof fn lemma_xor_implies(
    cs: Seq<Seq<Lit>>,
    rel: Seq<usize>,
    inputs: Seq<usize>,
    target: usize,
    b: bool,
    t: int,
    m: Seq<bool>,
)
    requires
        inputs.len() < 64,
        no_repeats(inputs),
        forall|j: int| 0 <= j < inputs.len() ==> (#[trigger] inputs[j]) < m.len(),
        target < m.len(),
        is_xor_upto(cs, rel, inputs, target, b, two_to(inputs.len() as u64)),
        0 <= t < rel.len(),
        rel[t] < cs.len(),
        lits_in_range(cs[rel[t] as int], m.len()),
        parity(m, inputs.push(target)) == b,
    ensures
        clause_holds(m, cs[rel[t] as int]),
{
    let k = inputs.len();
    let i = encode(m, inputs, k);
    lemma_encode(m, inputs, k);
    assert(inputs.take(k as int) =~= inputs);
    assert(inputs.push(target).drop_last() =~= inputs);
    assert(row_relation(cs, rel, inputs, target, i) == Some(b));
    let a = row_assignment(inputs, i, k);
    lemma_row_assignment(inputs, i, k);
    let ls = cs[rel[t] as int];
    let len = ls.len() as int;
    let e = effect(a, ls, target);
    assert(some_effect(cs, rel, inputs, target, i, rel.len() as int, e));
    if sat_by_inputs(a, ls, target, len) {
        let j = choose|j: int| 0 <= j < len && (#[trigger] ls[j]).spec_var() != target && lit_sat(a, ls[j]);
        let v = ls[j].spec_var() as usize;
        let q = choose|q: int| 0 <= q < k && #[trigger] inputs[q] == v;
        assert(a[inputs[q]] == bit_of(i, q as u64));
        assert(lit_holds(m, ls[j]));
    } else if names(ls, target, false, len) && names(ls, target, true, len) {
        let neg = !m[target as int];
        let j = choose|j: int| 0 <= j < len && (#[trigger] ls[j]).spec_var() == target && ls[j].spec_is_neg() == neg;
        assert(lit_holds(m, ls[j]));
    } else if names(ls, target, false, len) {
        let j = choose|j: int| 0 <= j < len && (#[trigger] ls[j]).spec_var() == target && ls[j].spec_is_neg() == false;
        assert(m[target as int]);
        assert(lit_holds(m, ls[j]));
    } else if names(ls, target, true, len) {
        let j = choose|j: int| 0 <= j < len && (#[trigger] ls[j]).spec_var() == target && ls[j].spec_is_neg() == true;
        assert(!m[target as int]);
        assert(lit_holds(m, ls[j]));
    }
}

/// Every constraint holds in `m`.
pub open spec fn xors_hold(m: Seq<bool>, xors: Seq<XorConstraint>) -> bool {
    forall|x: int| 0 <= x < xors.len() ==> parity(m, (#[trigger] xors[x]).vars@) == xors[x].rhs
}

/// Finds XOR constraints by truth tables. Each variable in turn is taken as
/// an output whose inputs are the other variables of the clauses
/// of at most six literals that name it; if there are between two and four
/// inputs and the clauses make the output their sum over GF(2), up to a
/// constant, the constraint is recorded and the clauses are marked as used.
/// Returns the constraints and the indices of the used clauses, in
/// increasing order.
pub fn extract_semantic_xors(clauses: &Vec<Clause>, num_vars: usize) -> (r: (Vec<XorConstraint>, Vec<usize>))
    requires
        forall|c: int| 0 <= c < clauses@.len() ==> lits_in_range((#[trigger] clauses@[c]).lits@, num_vars as nat),
    ensures
        forall|x: int| 0 <= x < r.0@.len() ==> xor_ok(#[trigger] r.0@[x], num_vars as nat),
        forall|e: int| 0 <= e < r.1@.len() ==> (#[trigger] r.1@[e]) < clauses@.len(),
        forall|e1: int, e2: int| 0 <= e1 < e2 < r.1@.len() ==> r.1@[e1] < r.1@[e2],
        forall|m: Seq<bool>|
            m.len() == num_vars && all_hold(m, clauses@) ==> #[trigger] xors_hold(m, r.0@),
        forall|e: int|
            0 <= e < r.1@.len() ==> implied_by_some(r.0@, (#[trigger] clauses@[r.1@[e] as int]).lits@, num_vars as nat),
        xor_views(r.0@) == constraints_upto(lits_of(clauses@), num_vars as int),
        forall|c: usize| #[trigger] r.1@.contains(c) <==> c < clauses@.len() && used_by(lits_of(clauses@), c as int, num_vars as int),
{
    broadcast use vstd::std_specs::hash::group_hash_axioms;

    let ghost n = num_vars as nat;
    let mut xors: Vec<XorConstraint> = Vec::new();
    let mut used: HashSet<usize> = HashSet::new();
    let ghost mut marks: Seq<bool> = Seq::new(clauses@.len(), |c: int| false);
    let mut adj: Vec<Vec<usize>> = Vec::new();
    let mut v: usize = 0;
    while v < num_vars
        invariant
            0 <= v <= num_vars,
            adj@.len() == v,
            forall|u: int| 0 <= u < v ==> (#[trigger] adj@[u])@ == adjacency(lits_of(clauses@), u as usize, 0),
        decreases num_vars - v,
    {
        adj.push(Vec::new());
        proof {
            assert(adj@[v as int]@ =~= adjacency(lits_of(clauses@), v, 0));
        }
        v = v + 1;
    }
    let mut i: usize = 0;
    while i < clauses.len()
        invariant
            0 <= i <= clauses@.len(),
            adj@.len() == num_vars,
            forall|c: int| 0 <= c < clauses@.len() ==> lits_in_range((#[trigger] clauses@[c]).lits@, num_vars as nat),
            forall|u: int| 0 <= u < num_vars ==> (#[trigger] adj@[u])@ == adjacency(lits_of(clauses@), u as usize, i as int),
        decreases clauses.len() - i,
    {
        if clauses[i].lits.len() <= 6 {
            let ghost ls = clauses@[i as int].lits@;
            let ghost base = adj@;
            proof {
                assert forall|u: int| 0 <= u < num_vars implies (#[trigger] adj@[u])@ == adjacency(
                    lits_of(clauses@),
                    u as usize,
                    i as int,
                ) + occurrences(ls, u as usize, 0, i) by {
                    assert(adj@[u]@ =~= adj@[u]@ + occurrences(ls, u as usize, 0, i));
                }
            }
            let mut k: usize = 0;
            while k < clauses[i].lits.len()
                invariant
                    0 <= i < clauses@.len(),
                    ls == clauses@[i as int].lits@,
                    0 <= k <= ls.len(),
                    adj@.len() == num_vars,
                    lits_in_range(ls, num_vars as nat),
                    forall|u: int|
                        0 <= u < num_vars ==> (#[trigger] adj@[u])@ == adjacency(lits_of(clauses@), u as usize, i as int)
                            + occurrences(ls, u as usize, k as int, i),
                decreases clauses[i as int].lits.len() - k,
            {
                let var = clauses[i].lits[k].var();
                let ghost before = adj@;
                adj[var].push(i);
                proof {
                    assert forall|u: int| 0 <= u < num_vars implies (#[trigger] adj@[u])@ == adjacency(
                        lits_of(clauses@),
                        u as usize,
                        i as int,
                    ) + occurrences(ls, u as usize, k + 1, i) by {
                        assert(before[u]@ == adjacency(lits_of(clauses@), u as usize, i as int) + occurrences(
                            ls,
                            u as usize,
                            k as int,
                            i,
                        ));
                        if u == var {
                            assert(adj@[u]@ =~= before[u]@.push(i));
                            assert(adj@[u]@ =~= adjacency(lits_of(clauses@), u as usize, i as int) + occurrences(
                                ls,
                                u as usize,
                                k + 1,
                                i,
                            ));
                        } else {
                            assert(adj@[u] == before[u]);
                        }
                    }
                }
                k = k + 1;
            }
        }
        i = i + 1;
    }
    proof {
        assert forall|c: int| 0 <= c < clauses@.len() implies #[trigger] marks[c] == used_by(lits_of(clauses@), c, 0) by {}
        assert(xor_views(xors@) =~= constraints_upto(lits_of(clauses@), 0));
        assert(clauses.len() == clauses@.len());
    }

    let mut var: usize = 0;
    while var < num_vars
        invariant
            n == num_vars,
            0 <= var <= num_vars,
            clauses@.len() <= usize::MAX,
            adj@.len() == num_vars,
            marks.len() == clauses@.len(),
            forall|c: usize| c < clauses@.len() ==> #[trigger] used@.contains(c) == marks[c as int],
            forall|c: int| 0 <= c < clauses@.len() ==> lits_in_range((#[trigger] clauses@[c]).lits@, num_vars as nat),
            forall|u: int|
                0 <= u < num_vars ==> (#[trigger] adj@[u])@ == adjacency(lits_of(clauses@), u as usize, clauses@.len() as int),
            forall|x: int| 0 <= x < xors@.len() ==> xor_ok(#[trigger] xors@[x], num_vars as nat),
            forall|m: Seq<bool>|
                m.len() == num_vars && all_hold(m, clauses@) ==> #[trigger] xors_hold(m, xors@),
            xor_views(xors@) == constraints_upto(lits_of(clauses@), var as int),
            forall|c: int| 0 <= c < clauses@.len() ==> #[trigger] marks[c] == used_by(lits_of(clauses@), c, var as int),
            forall|c: int|
                0 <= c < clauses@.len() && #[trigger] marks[c] ==> implied_by_some(xors@, clauses@[c].lits@, n),
        decreases num_vars - var,
    {
        let rel = &adj[var];
        let ghost old_xors = xors@;
        let ghost old_used = marks;
        let ghost whole = clauses@.len() as int;
        proof {
            assert(rel@ == adjacency(lits_of(clauses@), var, whole));
            lemma_adjacency_bound(lits_of(clauses@), var, whole);
        }
        let mut found = false;
        if rel.len() > 0 {
            let (neighbor_vec, neighbors) = collect_neighbors(clauses, rel, var, num_vars);
            if neighbor_vec.len() >= 2 && neighbor_vec.len() <= 4 {
                match check_semantic_xor_logic(var, neighbor_vec.as_slice(), rel.as_slice(), clauses) {
                    Some(rhs) => {
                        found = true;
                        let mut xor_vars: Vec<usize> = Vec::with_capacity(neighbor_vec.len() + 1);
                        let mut j: usize = 0;
                        while j < neighbor_vec.len()
                            invariant
                                0 <= j <= neighbor_vec@.len(),
                                xor_vars@ == neighbor_vec@.take(j as int),
                            decreases neighbor_vec.len() - j,
                        {
                            xor_vars.push(neighbor_vec[j]);
                            proof {
                                assert(xor_vars@ =~= neighbor_vec@.take(j + 1));
                            }
                            j = j + 1;
                        }
                        xor_vars.push(var);
                        let xor = XorConstraint { vars: xor_vars, rhs };
                        proof {
                            assert(neighbor_vec@.take(neighbor_vec@.len() as int) =~= neighbor_vec@);
                            assert(xor.vars@ =~= neighbor_vec@.push(var));
                            assert(xor.vars@.drop_last() =~= neighbor_vec@);
                            assert(constraint_at(lits_of(clauses@), var) == Some((xor.vars@, rhs)));
                        }
                        xors.push(xor);
                        proof {
                            assert forall|c: int| 0 <= c < clauses@.len() && #[trigger] marks[c] implies implied_by_some(
                                xors@,
                                clauses@[c].lits@,
                                n,
                            ) by {
                                let x = choose|x: int|
                                    0 <= x < old_xors.len() && implies_clause(
                                        (#[trigger] old_xors[x]).vars@,
                                        old_xors[x].rhs,
                                        clauses@[c].lits@,
                                        n,
                                    );
                                assert(xors@[x] == old_xors[x]);
                            }
                            assert(xor_views(xors@) =~= constraints_upto(lits_of(clauses@), var as int).push((xor.vars@, rhs)));
                            assert forall|x: int| 0 <= x < xors@.len() implies xor_ok(#[trigger] xors@[x], num_vars as nat) by {
                                if x < old_xors.len() {
                                    assert(xors@[x] == old_xors[x]);
                                }
                            }
                            assert forall|m: Seq<bool>|
                                m.len() == num_vars && all_hold(m, clauses@) implies #[trigger] xors_hold(
                                m,
                                xors@,
                            ) by {
                                assert(xors_hold(m, old_xors));
                                assert(defining_clauses(lits_of(clauses@), rel@, neighbor_vec@, var, m)) by {
                                    let cs = lits_of(clauses@);
                                    assert forall|t: int| 0 <= t < rel@.len() implies {
                                        let ls = #[trigger] cs[rel@[t] as int];
                                        &&& rel@[t] < cs.len()
                                        &&& clause_holds(m, ls)
                                        &&& covered(ls, neighbor_vec@, var)
                                    } by {
                                        let c = rel@[t] as int;
                                        assert(cs[c] == clauses@[c].lits@);
                                        assert(clause_holds(m, clauses@[c].lits@));
                                        assert(covered(cs[c], neighbor_vec@, var));
                                    }
                                }
                                lemma_xor_sound(lits_of(clauses@), rel@, neighbor_vec@, var, rhs, m);
                                assert forall|x: int| 0 <= x < xors@.len() implies parity(m, (#[trigger] xors@[x]).vars@)
                                    == xors@[x].rhs by {
                                    if x < old_xors.len() {
                                        assert(xors@[x] == old_xors[x]);
                                    }
                                }
                            }
                        }
                        let mut t: usize = 0;
                        while t < rel.len()
                            invariant
                                0 <= t <= rel@.len(),
                                forall|v: usize| #[trigger] neighbors@.contains(v) <==> neighbor_vec@.contains(v),
                                clauses@.len() <= usize::MAX,
                                marks.len() == clauses@.len(),
            forall|c: usize| c < clauses@.len() ==> #[trigger] used@.contains(c) == marks[c as int],
                                old_used.len() == clauses@.len(),
                                forall|t: int| 0 <= t < rel@.len() ==> (#[trigger] rel@[t]) < clauses@.len(),
                                n == num_vars,
                                xors@.len() > 0,
                                xors@[xors@.len() - 1].vars@ == neighbor_vec@.push(var),
                                xors@[xors@.len() - 1].rhs == rhs,
                                neighbor_vec@.len() < 64,
                                no_repeats(neighbor_vec@),
                                var < num_vars,
                                forall|q: int| 0 <= q < neighbor_vec@.len() ==> (#[trigger] neighbor_vec@[q]) < num_vars,
                                forall|c: int|
                                    0 <= c < clauses@.len() ==> lits_in_range((#[trigger] clauses@[c]).lits@, num_vars as nat),
                                is_xor_upto(
                                    lits_of(clauses@),
                                    rel@,
                                    neighbor_vec@,
                                    var,
                                    rhs,
                                    two_to(neighbor_vec@.len() as u64),
                                ),
                                forall|c: int|
                                    0 <= c < clauses@.len() && #[trigger] marks[c] ==> implied_by_some(
                                        xors@,
                                        clauses@[c].lits@,
                                        n,
                                    ),
                                forall|c: int|
                                    0 <= c < clauses@.len() ==> #[trigger] marks[c] == (old_used[c] || marked(
                                        lits_of(clauses@),
                                        rel@,
                                        neighbor_vec@,
                                        var,
                                        c,
                                        t as int,
                                    )),
                            decreases rel.len() - t,
                        {
                            let idx = rel[t];
                            let ghost ls = clauses@[idx as int].lits@;
                            let mut all_in_xor = true;
                            let mut k: usize = 0;
                            while k < clauses[idx].lits.len()
                                invariant
                                    idx < clauses@.len(),
                                    ls == clauses@[idx as int].lits@,
                                    0 <= k <= ls.len(),
                                    forall|v: usize| #[trigger] neighbors@.contains(v) <==> neighbor_vec@.contains(v),
                                    all_in_xor == forall|q: int|
                                        0 <= q < k ==> (#[trigger] ls[q]).spec_var() == var || neighbor_vec@.contains(
                                            ls[q].spec_var() as usize,
                                        ),
                                decreases clauses[idx as int].lits.len() - k,
                            {
                                let lv = clauses[idx].lits[k].var();
                                if !(lv == var || neighbors.contains(&lv)) {
                                    all_in_xor = false;
                                }
                                k = k + 1;
                            }
                            let ghost before_used = marks;
                            if all_in_xor {
                                used.insert(idx);
                                proof {
                                    marks = marks.update(idx as int, true);
                                }
                            }
                            proof {
                                assert forall|c: int| 0 <= c < clauses@.len() && #[trigger] marks[c] implies implied_by_some(
                                    xors@,
                                    clauses@[c].lits@,
                                    n,
                                ) by {
                                    if c == idx && !before_used[c] {
                                        let last = xors@.len() - 1;
                                        assert forall|m: Seq<bool>|
                                            m.len() == n && parity(m, xors@[last].vars@) == xors@[last].rhs implies #[trigger] clause_holds(
                                            m,
                                            clauses@[c].lits@,
                                        ) by {
                                            assert(lits_of(clauses@)[c] == clauses@[c].lits@);
                                            lemma_xor_implies(lits_of(clauses@), rel@, neighbor_vec@, var, rhs, t as int, m);
                                        }
                                        assert(0 <= last < xors@.len() && implies_clause(
                                            xors@[last].vars@,
                                            xors@[last].rhs,
                                            clauses@[c].lits@,
                                            n,
                                        ));
                                    } else {
                                        assert(before_used[c]);
                                    }
                                }
                                assert(all_in_xor == covered(ls, neighbor_vec@, var));
                                assert forall|c: int| 0 <= c < clauses@.len() implies #[trigger] marks[c] == (old_used[c]
                                    || marked(lits_of(clauses@), rel@, neighbor_vec@, var, c, t + 1)) by {
                                    assert(before_used[c] == (old_used[c] || marked(
                                        lits_of(clauses@),
                                        rel@,
                                        neighbor_vec@,
                                        var,
                                        c,
                                        t as int,
                                    )));
                                    lemma_marked_step(lits_of(clauses@), rel@, neighbor_vec@, var, c, t as int);
                                }
                            }
                            t = t + 1;
                        }
                        proof {
                            assert forall|c: int| 0 <= c < clauses@.len() implies #[trigger] marks[c] == used_by(
                                lits_of(clauses@),
                                c,
                                var + 1,
                            ) by {
                                lemma_marked_all(lits_of(clauses@), rel@, neighbor_vec@, var, c);
                            }
                        }
                    },
                    None => {},
                }
            }
        }
        proof {
            if !found {
                assert(constraint_at(lits_of(clauses@), var) is None);
                assert(constraints_upto(lits_of(clauses@), var + 1) == constraints_upto(lits_of(clauses@), var as int));
                assert forall|c: int| 0 <= c < clauses@.len() implies #[trigger] marks[c] == used_by(lits_of(clauses@), c, var + 1) by {}
            }
        }
        var = var + 1;
    }

    let mut indices: Vec<usize> = Vec::new();
    let mut c: usize = 0;
    while c < clauses.len()
        invariant
            0 <= c <= clauses@.len(),
            marks.len() == clauses@.len(),
            forall|c: usize| c < clauses@.len() ==> #[trigger] used@.contains(c) == marks[c as int],
            forall|e: int| 0 <= e < indices@.len() ==> (#[trigger] indices@[e]) < c,
            forall|e1: int, e2: int| 0 <= e1 < e2 < indices@.len() ==> indices@[e1] < indices@[e2],
            forall|q: usize| #[trigger] indices@.contains(q) <==> q < c && marks[q as int],
            forall|e: int| 0 <= e < indices@.len() ==> marks[(#[trigger] indices@[e]) as int],
        decreases clauses.len() - c,
    {
        let ghost before = indices@;
        if used.contains(&c) {
            indices.push(c);
            proof {
                assert(indices@[before.len() as int] == c);
                assert forall|q: usize| #[trigger] indices@.contains(q) <==> q < c + 1 && marks[q as int] by {
                    if indices@.contains(q) {
                        let e = choose|e: int| 0 <= e < indices@.len() && indices@[e] == q;
                        if e < before.len() {
                            assert(before[e] == q);
                            assert(before.contains(q));
                        }
                    }
                    if q < c + 1 && marks[q as int] {
                        if q < c {
                            assert(before.contains(q));
                            let e = choose|e: int| 0 <= e < before.len() && before[e] == q;
                            assert(indices@[e] == q);
                        }
                    }
                }
            }
        } else {
            proof {
                assert forall|q: usize| #[trigger] indices@.contains(q) <==> q < c + 1 && marks[q as int] by {}
            }
        }
        c = c + 1;
    }
    proof {
        assert forall|q: usize| #[trigger] indices@.contains(q) <==> q < clauses@.len() && used_by(
            lits_of(clauses@),
            q as int,
            num_vars as int,
        ) by {
            if q < clauses@.len() {
                assert(marks[q as int] == used_by(lits_of(clauses@), q as int, num_vars as int));
            }
        }
    }
    (xors, indices)
}

/// Clause `c` is one of the first `t` listed in `rel` and names `var` and
/// the inputs only.
pub open spec fn marked(cs: Seq<Seq<Lit>>, rel: Seq<usize>, inputs: Seq<usize>, var: usize, c: int, t: int) -> bool {
    covered(cs[c], inputs, var) && exists|q: int| 0 <= q < t && #[trigger] rel[q] == c
}

pub proof fn lemma_marked_step(cs: Seq<Seq<Lit>>, rel: Seq<usize>, inputs: Seq<usize>, var: usize, c: int, t: int)
    requires
        0 <= t < rel.len(),
    ensures
        marked(cs, rel, inputs, var, c, t + 1) == (marked(cs, rel, inputs, var, c, t) || (rel[t] == c
            && covered(cs[c], inputs, var))),
{
    if marked(cs, rel, inputs, var, c, t + 1) {
        let q = choose|q: int| 0 <= q < t + 1 && #[trigger] rel[q] == c;
        if q < t {
            assert(0 <= q < t && rel[q] == c);
        }
    }
    if marked(cs, rel, inputs, var, c, t) {
        let q = choose|q: int| 0 <= q < t && #[trigger] rel[q] == c;
        assert(0 <= q < t + 1 && rel[q] == c);
    }
    if rel[t] == c {
        assert(0 <= t < t + 1 && rel[t] == c);
    }
}

/// Once every clause of the constraint of `var` was looked at, the marked clauses
/// are those used up by the constraint.
pub proof fn lemma_marked_all(cs: Seq<Seq<Lit>>, rel: Seq<usize>, inputs: Seq<usize>, var: usize, c: int)
    requires
        0 <= c < cs.len() <= usize::MAX,
        rel == adjacency(cs, var, cs.len() as int),
        inputs == neighbors_of(cs, rel, var, rel.len() as int),
    ensures
        marked(cs, rel, inputs, var, c, rel.len() as int) == in_constraint(cs, var, c),
{
    if marked(cs, rel, inputs, var, c, rel.len() as int) {
        let q = choose|q: int| 0 <= q < rel.len() && #[trigger] rel[q] == c;
        assert(rel[q] == c as usize);
        assert(rel.contains(c as usize));
    }
    if in_constraint(cs, var, c) {
        let q = choose|q: int| 0 <= q < rel.len() && rel[q] == c as usize;
        assert(0 <= q < rel.len() && rel[q] == c);
    }
}

/// The adjacency of a variable lists indices of clauses.
pub proof fn lemma_adjacency_bound(cs: Seq<Seq<Lit>>, v: usize, upto: int)
    requires
        0 <= upto <= cs.len() <= usize::MAX,
    ensures
        forall|e: int| 0 <= e < adjacency(cs, v, upto).len() ==> (#[trigger] adjacency(cs, v, upto)[e]) < upto,
    decreases upto,
{
    if upto > 0 {
        lemma_adjacency_bound(cs, v, upto - 1);
        let ls = cs[upto - 1];
        let before = adjacency(cs, v, upto - 1);
        let added = occurrences(ls, v, ls.len() as int, (upto - 1) as usize);
        lemma_occurrences(ls, v, ls.len() as int, (upto - 1) as usize);
        let now = adjacency(cs, v, upto);
        assert forall|e: int| 0 <= e < now.len() implies (#[trigger] now[e]) < upto by {
            if ls.len() <= 6 {
                if e < before.len() {
                    assert(now[e] == before[e]);
                } else {
                    assert(now[e] == added[e - before.len()]);
                }
            }
        }
    }
}

/// The occurrences list holds the index only.
pub proof fn lemma_occurrences(ls: Seq<Lit>, v: usize, k: int, i: usize)
    ensures
        forall|e: int| 0 <= e < occurrences(ls, v, k, i).len() ==> (#[trigger] occurrences(ls, v, k, i)[e]) == i,
    decreases k,
{
    if k > 0 {
        lemma_occurrences(ls, v, k - 1, i);
        let before = occurrences(ls, v, k - 1, i);
        let now = occurrences(ls, v, k, i);
        assert forall|e: int| 0 <= e < now.len() implies (#[trigger] now[e]) == i by {
            if e < before.len() {
                assert(now[e] == before[e]);
            }
        }
    }
}

} // verus!
