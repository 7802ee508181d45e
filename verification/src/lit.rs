//! Literals, variable values, clauses, and what it means for them to hold
//! under a partial assignment or under a total model.

use vstd::prelude::*;

verus! {

/// A literal: variable `v` with a polarity, encoded as `2 * v + neg`.
#[derive(Debug, Copy, Clone, PartialEq, Eq, Hash, Structural)]
pub struct Lit(pub u32);

/// One more than the largest variable index a literal can carry.
pub const MAX_VARS: usize = 0x8000_0000;

impl Lit {
    /// The encoded value, `2 * var + neg`.
    pub open spec fn code(self) -> int {
        self.0 as int
    }

    /// The variable index.
    pub open spec fn spec_var(self) -> int {
        self.0 as int / 2
    }

    /// Whether the literal is the negation of its variable.
    pub open spec fn spec_is_neg(self) -> bool {
        self.0 as int % 2 == 1
    }

    /// The complementary literal.
    pub open spec fn spec_not(self) -> Lit {
        if self.0 as int % 2 == 0 {
            Lit((self.0 + 1) as u32)
        } else {
            Lit((self.0 - 1) as u32)
        }
    }

    /// The literal of variable `var` with the given polarity, for `var < MAX_VARS`.
    pub open spec fn make(var: int, is_negated: bool) -> Lit {
        Lit((2 * var + if is_negated { 1int } else { 0int }) as u32)
    }

    /// Builds a literal. Only the low 31 bits of `var` are kept.
    pub fn new(var: usize, is_negated: bool) -> (r: Lit)
        ensures
            r == Lit::make(var as int % 0x8000_0000, is_negated),
            var < MAX_VARS ==> r.spec_var() == var && r.spec_is_neg() == is_negated,
    {
        let low: u32 = (var % 0x8000_0000) as u32;
        let bit: u32 = if is_negated { 1 } else { 0 };
        assert(((low << 1u32) | bit) == 2 * low + bit) by (bit_vector)
            requires
                low < 0x8000_0000u32,
                bit == 0u32 || bit == 1u32,
        ;
        Lit((low << 1u32) | bit)
    }

    /// The variable index.
    pub fn var(&self) -> (r: usize)
        ensures
            r == self.spec_var(),
            r < MAX_VARS,
    {
        let x: u32 = self.0;
        assert(x >> 1u32 == x / 2) by (bit_vector);
        (self.0 >> 1u32) as usize
    }

    /// Whether the literal is the negation of its variable.
    pub fn is_neg(&self) -> (r: bool)
        ensures
            r == self.spec_is_neg(),
    {
        let x: u32 = self.0;
        assert((x & 1u32 != 0u32) == (x % 2 == 1)) by (bit_vector);
        (self.0 & 1u32) != 0
    }

    /// Negation: flips the polarity bit.
    pub fn not(&self) -> (r: Lit)
        ensures
            r == self.spec_not(),
            r.spec_var() == self.spec_var(),
            r.spec_is_neg() == !self.spec_is_neg(),
    {
        let x: u32 = self.0;
        assert(x ^ 1u32 == if x % 2 == 0 { (x + 1) as u32 } else { (x - 1) as u32 }) by (bit_vector);
        assert(x % 2 == 0 ==> x < 0xffff_ffffu32) by (bit_vector);
        Lit(self.0 ^ 1u32)
    }

    /// The index of this literal in per-literal tables.
    pub fn to_usize(&self) -> (r: usize)
        ensures
            r == self.code(),
    {
        self.0 as usize
    }
}

/// The code of the negation: the neighbour of the code within its pair.
pub proof fn lemma_not_code(l: Lit)
    ensures
        l.code() % 2 == 0 ==> l.spec_not().code() == l.code() + 1,
        l.code() % 2 == 1 ==> l.spec_not().code() == l.code() - 1,
        l.code() % 2 == 0 || l.code() % 2 == 1,
        l.spec_not().code() / 2 == l.code() / 2,
        l.spec_not().code() % 2 != l.code() % 2,
{
    let x = l.0 as int;
    if x % 2 == 0 {
        assert(x + 1 <= 0xffff_ffff);
        assert(((x + 1) as u32) as int == x + 1);
    } else {
        assert(x - 1 >= 0);
        assert(((x - 1) as u32) as int == x - 1);
    }
}

/// Negating twice gives the literal back, and a literal differs from its negation.
pub proof fn lemma_not_involutive(l: Lit)
    ensures
        l.spec_not().spec_not() == l,
        l.spec_not() != l,
        l.spec_not().spec_var() == l.spec_var(),
        l.spec_not().spec_is_neg() == !l.spec_is_neg(),
{
    lemma_not_code(l);
    lemma_not_code(l.spec_not());
    assert(l.spec_not().spec_not().0 == l.0);
}

/// The value of a variable, or of a literal, under a partial assignment.
#[derive(Debug, Copy, Clone, PartialEq, Eq, Structural)]
pub enum VarValue {
    Unassigned,
    True,
    False,
}

/// A disjunction of literals, and whether conflict analysis produced it.
#[derive(Debug, Clone)]
pub struct Clause {
    pub lits: Vec<Lit>,
    pub learned: bool,
}

/// The value of a literal under a partial assignment.
pub open spec fn lit_value(a: Seq<VarValue>, l: Lit) -> VarValue
    recommends
        l.spec_var() < a.len(),
{
    match a[l.spec_var()] {
        VarValue::Unassigned => VarValue::Unassigned,
        VarValue::True => if l.spec_is_neg() { VarValue::False } else { VarValue::True },
        VarValue::False => if l.spec_is_neg() { VarValue::True } else { VarValue::False },
    }
}

/// The value a variable takes when literal `l` is made true.
pub open spec fn value_making_true(l: Lit) -> VarValue {
    if l.spec_is_neg() { VarValue::False } else { VarValue::True }
}

/// Some literal of the clause is True under the partial assignment.
pub open spec fn clause_satisfied(a: Seq<VarValue>, c: Seq<Lit>) -> bool {
    exists|k: int| 0 <= k < c.len() && #[trigger] lit_value(a, c[k]) == VarValue::True
}

/// Every literal of the clause is False under the partial assignment.
pub open spec fn clause_falsified(a: Seq<VarValue>, c: Seq<Lit>) -> bool {
    forall|k: int| 0 <= k < c.len() ==> #[trigger] lit_value(a, c[k]) == VarValue::False
}

/// Literal `l` holds in the total model `m`.
pub open spec fn lit_holds(m: Seq<bool>, l: Lit) -> bool {
    l.spec_var() < m.len() && m[l.spec_var()] != l.spec_is_neg()
}

/// Some literal of the clause holds in the total model `m`.
pub open spec fn clause_holds(m: Seq<bool>, c: Seq<Lit>) -> bool {
    exists|k: int| 0 <= k < c.len() && #[trigger] lit_holds(m, c[k])
}

/// Every clause of the formula holds in the total model `m`.
pub open spec fn formula_holds(m: Seq<bool>, f: Seq<Seq<Lit>>) -> bool {
    forall|i: int| 0 <= i < f.len() ==> clause_holds(m, #[trigger] f[i])
}

/// Some total assignment to `n` variables makes every clause of `f` hold.
pub open spec fn satisfiable(f: Seq<Seq<Lit>>, n: nat) -> bool {
    exists|m: Seq<bool>| m.len() == n && #[trigger] formula_holds(m, f)
}

/// The total model that sets exactly the variables that are True in `a`.
pub open spec fn model_of(a: Seq<VarValue>) -> Seq<bool> {
    Seq::new(a.len(), |v: int| a[v] == VarValue::True)
}

/// Every literal of the clause names a variable below `n`.
pub open spec fn lits_in_range(c: Seq<Lit>, n: nat) -> bool {
    forall|k: int| 0 <= k < c.len() ==> (#[trigger] c[k]).spec_var() < n
}

/// No literal occurs twice in the clause.
pub open spec fn distinct(c: Seq<Lit>) -> bool {
    forall|i: int, j: int| 0 <= i < j < c.len() ==> c[i] != c[j]
}

/// The two clauses hold the same literals, in any order.
pub open spec fn same_lits(c: Seq<Lit>, d: Seq<Lit>) -> bool {
    &&& c.len() == d.len()
    &&& forall|k: int| 0 <= k < c.len() ==> d.contains(#[trigger] c[k])
    &&& forall|k: int| 0 <= k < d.len() ==> c.contains(#[trigger] d[k])
}

/// Clauses with the same literals hold in the same models.
pub proof fn lemma_same_lits_holds(m: Seq<bool>, c: Seq<Lit>, d: Seq<Lit>)
    requires
        same_lits(c, d),
    ensures
        clause_holds(m, c) == clause_holds(m, d),
{
    if clause_holds(m, c) {
        let k = choose|k: int| 0 <= k < c.len() && #[trigger] lit_holds(m, c[k]);
        assert(d.contains(c[k]));
        let j = choose|j: int| 0 <= j < d.len() && d[j] == c[k];
        assert(lit_holds(m, d[j]));
    }
    if clause_holds(m, d) {
        let k = choose|k: int| 0 <= k < d.len() && #[trigger] lit_holds(m, d[k]);
        assert(c.contains(d[k]));
        let j = choose|j: int| 0 <= j < c.len() && c[j] == d[k];
        assert(lit_holds(m, c[j]));
    }
}

/// Exchanging two positions of a clause keeps its literals, their range and
/// their distinctness.
pub proof fn lemma_swap_same_lits(c: Seq<Lit>, i: int, j: int)
    requires
        0 <= i < c.len(),
        0 <= j < c.len(),
    ensures
        same_lits(c, c.update(i, c[j]).update(j, c[i])),
        same_lits(c.update(i, c[j]).update(j, c[i]), c),
        distinct(c) ==> distinct(c.update(i, c[j]).update(j, c[i])),
        forall|n: nat| lits_in_range(c, n) ==> lits_in_range(c.update(i, c[j]).update(j, c[i]), n),
{
    let d = c.update(i, c[j]).update(j, c[i]);
    assert forall|k: int| 0 <= k < c.len() implies d.contains(#[trigger] c[k]) by {
        if k == i {
            assert(d[j] == c[k]);
        } else if k == j {
            assert(d[i] == c[k]);
        } else {
            assert(d[k] == c[k]);
        }
    }
    assert forall|k: int| 0 <= k < d.len() implies c.contains(#[trigger] d[k]) by {
        if k == i {
            assert(c[j] == d[k]);
        } else if k == j {
            assert(c[i] == d[k]);
        } else {
            assert(c[k] == d[k]);
        }
    }
    if distinct(c) {
        assert forall|a: int, b: int| 0 <= a < b < d.len() implies d[a] != d[b] by {
            let a0 = if a == i { j } else if a == j { i } else { a };
            let b0 = if b == i { j } else if b == j { i } else { b };
            assert(d[a] == c[a0]);
            assert(d[b] == c[b0]);
            assert(a0 != b0);
            if a0 < b0 {
                assert(c[a0] != c[b0]);
            } else {
                assert(c[b0] != c[a0]);
            }
        }
    }
    assert forall|n: nat| lits_in_range(c, n) implies lits_in_range(d, n) by {
        assert forall|k: int| 0 <= k < d.len() implies (#[trigger] d[k]).spec_var() < n by {
            let k0 = if k == i { j } else if k == j { i } else { k };
            assert(d[k] == c[k0]);
        }
    }
}

} // verus!
