//! Preprocessing: XOR constraints hidden in the clauses are found, reduced
//! by Gaussian elimination over GF(2), and what the reduction yields (units,
//! equivalences, shorter XORs) is put back into the clause database.

use std::collections::{HashMap, HashSet};
use vstd::prelude::*;
use crate::lit::{clause_holds, lit_holds, lits_in_range, Clause, Lit, MAX_VARS};
use crate::normalize::{lemma_normal_form_same, normal_form, strictly_sorted};
use crate::preprocessing::bitrow::BitRow;
use crate::preprocessing::extract::{
    all_hold, extract_semantic_xors, constraints_upto, used_by, xor_views, xors_hold,
};
use crate::preprocessing::gauss::{
    build_matrix, gaussian_eliminate, lemma_listed_sum, lemma_sum_beyond, matrix_view, reduced, row_ok, row_vars,
    row_view,
    rows_hold, rows_ok, set_bits,
};
use crate::preprocessing::subst::{
    apply_replacements, lemma_make_parts, lemma_replaced_clause, lemma_replaced_range, lemma_xor_clauses_hold,
    lemma_xor_clauses_range, lits_of, map_holds, map_in_range, replaced, simplify_clause, tautology, two_to,
    xor_clauses, xor_to_cnf,
};

pub mod bitrow;
pub mod extract;
pub mod gauss;
pub mod subst;

verus! {

/// A single XOR constraint: `x1 ^ x2 ^ ... ^ xn = rhs`.
#[derive(Debug, Clone)]
pub struct XorConstraint {
    pub vars: Vec<usize>,
    /// `true` means that an odd number of the variables are true.
    pub rhs: bool,
}

/// The clause database after preprocessing, the unit literals found, and
/// the replacements made: each names a variable that the clauses no longer
/// hold, the lower variable that stands for it, and whether it stands for
/// its negation.
pub struct PreprocessResult {
    pub clauses: Vec<Clause>,
    pub units: Vec<Lit>,
    pub replacements: Vec<(usize, usize, bool)>,
}

/// The replacements of the map for the variables below `k`, in their order.
pub open spec fn links_of(map: Map<usize, (usize, bool)>, k: int) -> Seq<(usize, usize, bool)>
    decreases k,
{
    if k <= 0 {
        Seq::empty()
    } else {
        let before = links_of(map, k - 1);
        let v = (k - 1) as usize;
        if map.contains_key(v) {
            before.push((v, map[v].0, map[v].1))
        } else {
            before
        }
    }
}

/// Every replacement holds in `m`: the variable replaced equals the one
/// that stands for it, or its negation.
pub open spec fn links_hold(m: Seq<bool>, links: Seq<(usize, usize, bool)>) -> bool {
    forall|i: int|
        0 <= i < links.len() ==> (#[trigger] links[i]).0 < m.len() && links[i].1 < m.len() && m[links[i].0 as int] == (m[links[i].1 as int]
            != links[i].2)
}

/// The value of variable `v` once the first `k` replacements have been
/// made in `m`: a replaced variable takes the value of the one that stands
/// for it, or the opposite.
pub open spec fn value_after(m: Seq<bool>, links: Seq<(usize, usize, bool)>, v: int, k: int) -> bool
    decreases k,
{
    if k <= 0 {
        m[v]
    } else if links[k - 1].0 == v {
        m[links[k - 1].1 as int] != links[k - 1].2
    } else {
        value_after(m, links, v, k - 1)
    }
}

/// The assignment `m` with every replaced variable set from the one that
/// stands for it.
pub open spec fn extended(m: Seq<bool>, links: Seq<(usize, usize, bool)>) -> Seq<bool> {
    Seq::new(m.len(), |v: int| value_after(m, links, v, links.len() as int))
}

/// No literal of the clause is of a variable that the map replaces.
pub open spec fn clause_free(ls: Seq<Lit>, map: Map<usize, (usize, bool)>) -> bool {
    forall|k: int| 0 <= k < ls.len() ==> !map.contains_key((#[trigger] ls[k]).spec_var() as usize)
}

/// No clause holds a variable that the map replaces.
pub open spec fn all_free(cs: Seq<Clause>, map: Map<usize, (usize, bool)>) -> bool {
    forall|c: int| 0 <= c < cs.len() ==> clause_free((#[trigger] cs[c]).lits@, map)
}

/// No clause and no unit literal holds a replaced variable, and no
/// replaced variable stands for another.
pub open spec fn replaced_nowhere(r: PreprocessResult) -> bool {
    forall|i: int|
        0 <= i < r.replacements@.len() ==> {
            let t = (#[trigger] r.replacements@[i]).0;
            &&& forall|c: int, k: int|
                0 <= c < r.clauses@.len() && 0 <= k < r.clauses@[c].lits@.len() ==> (#[trigger] r.clauses@[c].lits@[k]).spec_var()
                    != t
            &&& forall|u: int| 0 <= u < r.units@.len() ==> (#[trigger] r.units@[u]).spec_var() != t
            &&& forall|j: int| 0 <= j < r.replacements@.len() ==> (#[trigger] r.replacements@[j]).1 != t
        }
}

/// Setting the replaced variables of the map from those that stand for
/// them: what each variable then is.
pub proof fn lemma_value_after(map: Map<usize, (usize, bool)>, n: nat, m: Seq<bool>, v: int, k: int)
    requires
        n <= MAX_VARS,
        m.len() == n,
        0 <= v < n,
        map_in_range(map, n),
        forall|t: usize| #[trigger] map.contains_key(t) ==> map[t].0 < t,
        0 <= k <= links_of(map, n as int).len(),
    ensures
        value_after(m, links_of(map, n as int), v, k) == (if exists|i: int|
            0 <= i < k && (#[trigger] links_of(map, n as int)[i]).0 == v {
            m[map[v as usize].0 as int] != map[v as usize].1
        } else {
            m[v]
        }),
    decreases k,
{
    let links = links_of(map, n as int);
    lemma_links(map, n as int, n);
    if k > 0 {
        lemma_value_after(map, n, m, v, k - 1);
        if links[k - 1].0 == v {
            assert(map[links[k - 1].0] == (links[k - 1].1, links[k - 1].2));
        } else {
            if exists|i: int| 0 <= i < k && (#[trigger] links[i]).0 == v {
                let i = choose|i: int| 0 <= i < k && (#[trigger] links[i]).0 == v;
                assert(0 <= i < k - 1 && links[i].0 == v);
            }
        }
    }
}

/// The extended assignment gives a replaced variable the value of the one
/// that stands for it, or the opposite, and any other variable its own.
pub proof fn lemma_extended(map: Map<usize, (usize, bool)>, n: nat, m: Seq<bool>, v: int)
    requires
        n <= MAX_VARS,
        m.len() == n,
        0 <= v < n,
        map_in_range(map, n),
        forall|t: usize| #[trigger] map.contains_key(t) ==> map[t].0 < t,
    ensures
        extended(m, links_of(map, n as int)).len() == n,
        extended(m, links_of(map, n as int))[v] == (if map.contains_key(v as usize) {
            m[map[v as usize].0 as int] != map[v as usize].1
        } else {
            m[v]
        }),
{
    let links = links_of(map, n as int);
    lemma_links(map, n as int, n);
    lemma_value_after(map, n, m, v, links.len() as int);
    if map.contains_key(v as usize) {
        let i = choose|i: int|
            0 <= i < links.len() && #[trigger] links[i] == (v as usize, map[v as usize].0, map[v as usize].1);
        assert(links[i].0 == v);
    }
    if exists|i: int| 0 <= i < links.len() && (#[trigger] links[i]).0 == v {
        let i = choose|i: int| 0 <= i < links.len() && (#[trigger] links[i]).0 == v;
        assert(map.contains_key(links[i].0));
    }
}

/// Every replacement is of a variable below `n` by a lower one.
pub open spec fn links_ok(links: Seq<(usize, usize, bool)>, n: nat) -> bool {
    forall|i: int| 0 <= i < links.len() ==> (#[trigger] links[i]).1 < links[i].0 < n
}

/// The listed replacements are those of the map for the variables below `k`.
pub proof fn lemma_links(map: Map<usize, (usize, bool)>, k: int, n: nat)
    requires
        0 <= k <= n,
        n <= MAX_VARS,
        map_in_range(map, n),
        forall|t: usize| #[trigger] map.contains_key(t) ==> map[t].0 < t,
    ensures
        links_ok(links_of(map, k), n),
        forall|i: int|
            0 <= i < links_of(map, k).len() ==> (#[trigger] links_of(map, k)[i]).0 < k && map.contains_key(
                links_of(map, k)[i].0,
            ) && map[links_of(map, k)[i].0] == (links_of(map, k)[i].1, links_of(map, k)[i].2),
        forall|t: usize|
            t < k && #[trigger] map.contains_key(t) ==> exists|i: int|
                0 <= i < links_of(map, k).len() && #[trigger] links_of(map, k)[i] == (t, map[t].0, map[t].1),
    decreases k,
{
    if k > 0 {
        lemma_links(map, k - 1, n);
        let before = links_of(map, k - 1);
        let now = links_of(map, k);
        let v = (k - 1) as usize;
        assert forall|t: usize| t < k && #[trigger] map.contains_key(t) implies exists|i: int|
            0 <= i < now.len() && #[trigger] now[i] == (t, map[t].0, map[t].1) by {
            if t < k - 1 {
                let i = choose|i: int| 0 <= i < before.len() && #[trigger] before[i] == (t, map[t].0, map[t].1);
                assert(now[i] == before[i]);
            } else {
                assert(t == v);
                assert(now[before.len() as int] == (t, map[t].0, map[t].1));
            }
        }
        assert forall|i: int| 0 <= i < now.len() implies (#[trigger] now[i]).0 < k && map.contains_key(now[i].0)
            && map[now[i].0] == (now[i].1, now[i].2) && now[i].1 < now[i].0 < n by {
            if i < before.len() {
                assert(now[i] == before[i]);
            }
        }
    }
}

/// The listed replacements hold in `m` exactly if those of the map do.
pub proof fn lemma_links_hold(map: Map<usize, (usize, bool)>, n: nat, m: Seq<bool>)
    requires
        n <= MAX_VARS,
        m.len() == n,
        map_in_range(map, n),
        forall|t: usize| #[trigger] map.contains_key(t) ==> map[t].0 < t,
    ensures
        links_hold(m, links_of(map, n as int)) == map_holds(map, m),
{
    lemma_links(map, n as int, n);
    let links = links_of(map, n as int);
    if links_hold(m, links) {
        assert forall|t: usize| #[trigger] map.contains_key(t) implies t < m.len() && map[t].0 < m.len() && m[t as int] == (
        m[map[t].0 as int] != map[t].1) by {
            let i = choose|i: int| 0 <= i < links.len() && #[trigger] links[i] == (t, map[t].0, map[t].1);
            assert(links[i].0 < m.len());
        }
    }
    if map_holds(map, m) {
        assert forall|i: int| 0 <= i < links.len() implies (#[trigger] links[i]).0 < m.len() && links[i].1 < m.len()
            && m[links[i].0 as int] == (m[links[i].1 as int] != links[i].2) by {
            assert(map.contains_key(links[i].0));
        }
    }
}

/// The sum over GF(2) of the values that `m` gives the variables.
pub open spec fn parity(m: Seq<bool>, vars: Seq<usize>) -> bool
    decreases vars.len(),
{
    if vars.len() == 0 {
        false
    } else {
        parity(m, vars.drop_last()) != m[vars.last() as int]
    }
}

/// Every unit literal holds in `m`.
pub open spec fn units_hold(m: Seq<bool>, units: Seq<Lit>) -> bool {
    forall|u: int| 0 <= u < units.len() ==> lit_holds(m, #[trigger] units[u])
}

/// The result that stands for a contradiction: a single empty clause, no
/// unit and no replacement.
pub open spec fn contradiction(r: PreprocessResult) -> bool {
    r.clauses@.len() == 1 && r.clauses@[0].lits@.len() == 0 && r.units@.len() == 0 && r.replacements@.len() == 0
}

/// Every clause names variables below `n` and is in normal form.
pub open spec fn clauses_ok(cs: Seq<Clause>, n: nat) -> bool {
    forall|c: int| 0 <= c < cs.len() ==> lits_in_range((#[trigger] cs[c]).lits@, n) && strictly_sorted(cs[c].lits@)
}

/// The result names variables below `n` only, its clauses are in normal
/// form, and it is the contradiction or has neither an empty clause nor a
/// tautology.
pub open spec fn result_ok(r: PreprocessResult, n: nat) -> bool {
    &&& forall|u: int| 0 <= u < r.units@.len() ==> (#[trigger] r.units@[u]).spec_var() < n
    &&& clauses_ok(r.clauses@, n)
    &&& links_ok(r.replacements@, n)
    &&& contradiction(r) || forall|c: int|
        0 <= c < r.clauses@.len() ==> (#[trigger] r.clauses@[c]).lits@.len() > 0 && !tautology(r.clauses@[c].lits@)
}

/// `m` is a model of the clauses over `n` variables.
pub open spec fn is_model(m: Seq<bool>, clauses: Seq<Clause>, n: nat) -> bool {
    m.len() == n && all_hold(m, clauses)
}

/// The first `k` rows hold in `m`.
pub open spec fn first_rows_hold(m: Seq<bool>, rows: Seq<BitRow>, k: int) -> bool {
    forall|q: int| 0 <= q < k ==> (#[trigger] rows[q]).holds(m)
}

/// What the reduced rows yield holds in `m`.
pub open spec fn derived_hold(
    m: Seq<bool>,
    units: Seq<Lit>,
    map: Map<usize, (usize, bool)>,
    expanded: Seq<Clause>,
) -> bool {
    units_hold(m, units) && map_holds(map, m) && all_hold(m, expanded)
}

/// Variable `v` is that of a unit literal, or stands for a variable that
/// was replaced.
pub open spec fn is_fixed(units: Seq<Lit>, map: Map<usize, (usize, bool)>, v: usize) -> bool {
    ||| exists|i: int| 0 <= i < units.len() && (#[trigger] units[i]).spec_var() == v
    ||| exists|k: usize| #[trigger] map.contains_key(k) && map[k].0 == v
}

/// A replaced variable is replaced by a lower one that is not replaced
/// itself, and no unit literal is of a replaced variable.
pub open spec fn replaced_apart(units: Seq<Lit>, map: Map<usize, (usize, bool)>) -> bool {
    &&& forall|k: usize| #[trigger] map.contains_key(k) ==> map[k].0 < k && !map.contains_key(map[k].0)
    &&& forall|i: int| 0 <= i < units.len() ==> !map.contains_key((#[trigger] units[i]).spec_var() as usize)
}

/// What was read when no row was read yet.
pub open spec fn nothing_read() -> (Seq<Lit>, Map<usize, (usize, bool)>, Seq<Seq<Lit>>, bool, bool) {
    (Seq::empty(), Map::empty(), Seq::empty(), false, false)
}

/// What one more row adds to the units, the replacements, the expanded
/// clauses and the two flags (a contradiction was found; a row is too wide).
/// A row without variables is a contradiction if its right-hand side is 1.
/// A row with one variable gives the unit literal that makes the variable
/// equal to the right-hand side, unless the variable was replaced. A row
/// with two gives the replacement of the higher variable by the lower,
/// inverted iff the right-hand side is 1, unless one of them was replaced
/// or the higher is that of a unit or stands for another. A row with more
/// than twelve is too wide. Any other row gives its clauses.
pub open spec fn read_row(
    d: (Seq<Lit>, Map<usize, (usize, bool)>, Seq<Seq<Lit>>, bool, bool),
    row: (Seq<bool>, bool),
) -> (Seq<Lit>, Map<usize, (usize, bool)>, Seq<Seq<Lit>>, bool, bool) {
    let vars = set_bits(row.0, row.0.len() as int);
    if vars.len() == 0 {
        if row.1 {
            (d.0, d.1, d.2, true, d.4)
        } else {
            d
        }
    } else if vars.len() == 1 && !d.1.contains_key(vars[0]) {
        (d.0.push(Lit::make(vars[0] as int, !row.1)), d.1, d.2, d.3, d.4)
    } else if vars.len() == 2 && !d.1.contains_key(vars[1]) && !d.1.contains_key(vars[0]) && !is_fixed(
        d.0,
        d.1,
        vars[1],
    ) {
        (d.0, d.1.insert(vars[1], (vars[0], row.1)), d.2, d.3, d.4)
    } else if vars.len() > 12 {
        (d.0, d.1, d.2, d.3, true)
    } else {
        (d.0, d.1, d.2 + xor_clauses(vars, row.1, two_to(vars.len() as u64) as nat), d.3, d.4)
    }
}

/// What the first `k` rows yield, read in order up to the first that sets a flag.
pub open spec fn rows_read(m: Seq<(Seq<bool>, bool)>, k: int) -> (
    Seq<Lit>,
    Map<usize, (usize, bool)>,
    Seq<Seq<Lit>>,
    bool,
    bool,
)
    decreases k,
{
    if k <= 0 {
        nothing_read()
    } else {
        let d = rows_read(m, k - 1);
        if d.3 || d.4 {
            d
        } else {
            read_row(d, m[k - 1])
        }
    }
}

/// Once a flag is set, reading more rows changes nothing.
pub proof fn lemma_rows_read_stop(m: Seq<(Seq<bool>, bool)>, k: int, later: int)
    requires
        0 <= k <= later,
        rows_read(m, k).3 || rows_read(m, k).4,
    ensures
        rows_read(m, later) == rows_read(m, k),
    decreases later - k,
{
    if later > k {
        lemma_rows_read_stop(m, k, later - 1);
    }
}

/// A row without set bits has an empty list of them.
pub proof fn lemma_no_bits(bits: Seq<bool>, k: int)
    requires
        0 <= k <= bits.len(),
        forall|j: int| 0 <= j < k ==> !bits[j],
    ensures
        set_bits(bits, k).len() == 0,
    decreases k,
{
    if k > 0 {
        lemma_no_bits(bits, k - 1);
    }
}

/// What the reduced rows yield, as far as they were read.
pub struct Derived {
    pub units: Vec<Lit>,
    pub replacements: HashMap<usize, (usize, bool)>,
    pub expanded: Vec<Clause>,
    /// A row without variables has right-hand side 1.
    pub conflict: bool,
    /// A row has more than twelve variables.
    pub too_wide: bool,
}

/// Reads the reduced rows in order, up to the first that is a contradiction
/// or has more than twelve variables: a row with one variable gives a unit,
/// one with two gives a replacement of the higher variable by the lower, and
/// a longer one is expanded into clauses.
pub fn read_rows(matrix: &Vec<BitRow>, num_vars: usize) -> (d: Derived)
    requires
        num_vars <= MAX_VARS,
        rows_ok(matrix@, num_vars as nat),
    ensures
        forall|u: int| 0 <= u < d.units@.len() ==> (#[trigger] d.units@[u]).spec_var() < num_vars,
        map_in_range(d.replacements@, num_vars as nat),
        forall|c: int| 0 <= c < d.expanded@.len() ==> lits_in_range((#[trigger] d.expanded@[c]).lits@, num_vars as nat),
        forall|c: int| 0 <= c < d.expanded@.len() ==> !(#[trigger] d.expanded@[c]).learned,
        forall|m: Seq<bool>|
            m.len() == num_vars && #[trigger] rows_hold(m, matrix@) ==> !d.conflict && derived_hold(
                m,
                d.units@,
                d.replacements@,
                d.expanded@,
            ),
        (d.units@, d.replacements@, lits_of(d.expanded@), d.conflict, d.too_wide) == rows_read(
            matrix_view(matrix@, num_vars as nat),
            matrix@.len() as int,
        ),
        !d.conflict && !d.too_wide ==> forall|m: Seq<bool>|
            m.len() == num_vars && units_hold(m, d.units@) && map_holds(d.replacements@, m) && all_hold(
                m,
                d.expanded@,
            ) ==> #[trigger] rows_hold(m, matrix@),
        replaced_apart(d.units@, d.replacements@),
{
    broadcast use vstd::std_specs::hash::group_hash_axioms;

    let ghost n = num_vars as nat;
    let mut new_xor_clauses: Vec<Clause> = Vec::new();
    let mut units: Vec<Lit> = Vec::new();
    let mut replacements: HashMap<usize, (usize, bool)> = HashMap::new();
    let mut fixed: HashSet<usize> = HashSet::new();
    let mut found_conflict = false;
    let mut too_wide = false;
    let ghost mv = matrix_view(matrix@, n);
    proof {
        assert(lits_of(new_xor_clauses@) =~= Seq::<Seq<Lit>>::empty());
    }
    let mut r: usize = 0;
    while r < matrix.len() && !found_conflict && !too_wide
        invariant
            n == num_vars,
            num_vars <= MAX_VARS,
            rows_ok(matrix@, n),
            mv == matrix_view(matrix@, n),
            (units@, replacements@, lits_of(new_xor_clauses@), found_conflict, too_wide) == rows_read(mv, r as int),
            0 <= r <= matrix@.len(),
            forall|u: int| 0 <= u < units@.len() ==> (#[trigger] units@[u]).spec_var() < num_vars,
            map_in_range(replacements@, n),
            forall|c: int| 0 <= c < new_xor_clauses@.len() ==> lits_in_range((#[trigger] new_xor_clauses@[c]).lits@, n),
            forall|c: int| 0 <= c < new_xor_clauses@.len() ==> !(#[trigger] new_xor_clauses@[c]).learned,
            !found_conflict && !too_wide ==> forall|m: Seq<bool>|
                m.len() == num_vars && units_hold(m, units@) && map_holds(replacements@, m) && all_hold(
                    m,
                    new_xor_clauses@,
                ) ==> #[trigger] first_rows_hold(m, matrix@, r as int),
            replaced_apart(units@, replacements@),
            forall|v: usize| #[trigger] fixed@.contains(v) <==> is_fixed(units@, replacements@, v),
            forall|m: Seq<bool>|
                m.len() == num_vars && rows_hold(m, matrix@) ==> !found_conflict && #[trigger] derived_hold(
                    m,
                    units@,
                    replacements@,
                    new_xor_clauses@,
                ),
        decreases matrix.len() - r + (if found_conflict || too_wide {
            0int
        } else {
            1int
        }),
    {
        let row = &matrix[r];
        let ghost before_read = rows_read(mv, r as int);
        let ghost bits = mv[r as int].0;
        proof {
            assert(row_ok(matrix@[r as int], n));
            assert(mv[r as int] == row_view(*row, n));
            assert(bits.len() == n);
        }
        if row.is_zero_row() {
            proof {
                lemma_no_bits(bits, n as int);
                if !row.rhs {
                    assert forall|m: Seq<bool>|
                        m.len() == num_vars && units_hold(m, units@) && map_holds(replacements@, m) && all_hold(
                            m,
                            new_xor_clauses@,
                        ) implies #[trigger] first_rows_hold(m, matrix@, r + 1) by {
                        assert(first_rows_hold(m, matrix@, r as int));
                        crate::preprocessing::bitrow::lemma_zero_sum(row, m, num_vars as int);
                    }
                }
            }
            if row.rhs {
                found_conflict = true;
                proof {
                    assert forall|m: Seq<bool>| m.len() == num_vars && rows_hold(m, matrix@) implies false by {
                        assert(matrix@[r as int].holds(m));
                        crate::preprocessing::bitrow::lemma_zero_sum(row, m, num_vars as int);
                    }
                }
            }
        } else {
            let vars = row_vars(row);
            let ghost width = 64 * (row.chunks@.len() as int);
            proof {
                assert forall|e: int| 0 <= e < vars@.len() implies (#[trigger] vars@[e]) < num_vars by {
                    assert(row.bit(vars@[e] as int));
                }
                crate::preprocessing::gauss::lemma_lists_below(vars@, *row, width, num_vars as int);
                crate::preprocessing::gauss::lemma_listed_bits(vars@, *row, num_vars as int, n);
                assert(vars@ == set_bits(bits, n as int));
                // the row is not zero: some bit is set, and it is listed
                let k = choose|k: int| row.bit(k);
                assert(vars@.contains(k as usize));
                assert(vars@.len() > 0);
                assert forall|m: Seq<bool>| m.len() == num_vars implies #[trigger] row.sum(m, num_vars as int) == parity(
                    m,
                    vars@,
                ) by {
                    lemma_listed_sum(vars@, *row, width, m);
                    lemma_sum_beyond(*row, m, num_vars as int, width);
                }
                assert forall|m: Seq<bool>| m.len() == num_vars && rows_hold(m, matrix@) implies parity(m, vars@)
                    == row.rhs by {
                    assert(matrix@[r as int].holds(m));
                    lemma_listed_sum(vars@, *row, width, m);
                    lemma_sum_beyond(*row, m, num_vars as int, width);
                }
            }
            let mut single = false;
            if vars.len() == 1 {
                single = !replacements.contains_key(&vars[0]);
            }
            if vars.len() == 0 {
            } else if single {
                let ghost before = units@;
                let ghost fixed_before = fixed@;
                let v = vars[0];
                let unit = Lit::new(v, !row.rhs);
                units.push(unit);
                fixed.insert(v);
                proof {
                    lemma_make_parts(v as int, !row.rhs);
                    assert(unit.spec_var() == v);
                    assert(replaced_apart(units@, replacements@)) by {
                        assert forall|i: int| 0 <= i < units@.len() implies !replacements@.contains_key(
                            (#[trigger] units@[i]).spec_var() as usize,
                        ) by {
                            if i < before.len() {
                                assert(units@[i] == before[i]);
                            }
                        }
                    }
                    assert forall|w: usize| #[trigger] fixed@.contains(w) <==> is_fixed(units@, replacements@, w) by {
                        if is_fixed(before, replacements@, w) {
                            if exists|i: int| 0 <= i < before.len() && (#[trigger] before[i]).spec_var() == w {
                                let i = choose|i: int| 0 <= i < before.len() && (#[trigger] before[i]).spec_var() == w;
                                assert(units@[i] == before[i]);
                            }
                        }
                        if w == v {
                            assert(units@[before.len() as int].spec_var() == w);
                        }
                        if is_fixed(units@, replacements@, w) && w != v {
                            if exists|i: int| 0 <= i < units@.len() && (#[trigger] units@[i]).spec_var() == w {
                                let i = choose|i: int| 0 <= i < units@.len() && (#[trigger] units@[i]).spec_var() == w;
                                assert(i < before.len());
                                assert(units@[i] == before[i]);
                            }
                            assert(is_fixed(before, replacements@, w));
                        }
                        assert(fixed@.contains(w) <==> fixed_before.contains(w) || w == v);
                    }
                }
                proof {
                    lemma_make_parts(v as int, !row.rhs);
                    assert(v as int % 0x8000_0000 == v);
                    assert(units@ == before.push(Lit::make(v as int, !row.rhs)));
                    assert forall|u: int| 0 <= u < units@.len() implies (#[trigger] units@[u]).spec_var() < num_vars by {
                        if u < before.len() {
                            assert(units@[u] == before[u]);
                        }
                    }
                    assert forall|m: Seq<bool>| m.len() == num_vars && rows_hold(m, matrix@) implies !found_conflict
                        && #[trigger] derived_hold(m, units@, replacements@, new_xor_clauses@) by {
                        assert(derived_hold(m, before, replacements@, new_xor_clauses@));
                        assert(parity(m, vars@) == row.rhs);
                        assert(vars@.drop_last() =~= Seq::<usize>::empty());
                        assert(parity(m, vars@.drop_last()) == false);
                        assert(lit_holds(m, unit));
                        assert forall|u: int| 0 <= u < units@.len() implies lit_holds(m, #[trigger] units@[u]) by {
                            if u < before.len() {
                                assert(units@[u] == before[u]);
                            }
                        }
                    }
                }
                proof {
                    {
                        assert forall|m: Seq<bool>|
                            m.len() == num_vars && units_hold(m, units@) && map_holds(replacements@, m) && all_hold(
                                m,
                                new_xor_clauses@,
                            ) implies #[trigger] first_rows_hold(m, matrix@, r + 1) by {
                            assert forall|u: int| 0 <= u < before.len() implies lit_holds(m, #[trigger] before[u]) by {
                                assert(units@[u] == before[u]);
                                assert(lit_holds(m, units@[u]));
                            }
                            assert(units_hold(m, before));
                            assert(first_rows_hold(m, matrix@, r as int));
                            let unit = units@[units@.len() - 1];
                            assert(lit_holds(m, unit));
                            lemma_make_parts(vars@[0] as int, !row.rhs);
                            assert(vars@.drop_last() =~= Seq::<usize>::empty());
                            assert(parity(m, vars@.drop_last()) == false);
                            assert(row.sum(m, num_vars as int) == parity(m, vars@));
                            assert(matrix@[r as int].holds(m));
                        }
                    }
                }
            } else if vars.len() > 12 {
                too_wide = true;
            } else {
                let mut replace = false;
                if vars.len() == 2 {
                    replace = !replacements.contains_key(&vars[1]) && !replacements.contains_key(&vars[0])
                        && !fixed.contains(&vars[1]);
                }
                if replace {
                    let source = vars[0];
                    let target = vars[1];
                    let ghost v1 = source;
                    let ghost v2 = target;
                    let ghost before = replacements@;
                    let ghost fixed_before = fixed@;
                    replacements.insert(target, (source, row.rhs));
                    fixed.insert(source);
                    proof {
                        assert(vars@[0] < vars@[1]);
                        assert(!is_fixed(units@, before, target));
                        assert(replaced_apart(units@, replacements@)) by {
                            assert forall|t: usize| #[trigger] replacements@.contains_key(t) implies replacements@[t].0 < t
                                && !replacements@.contains_key(replacements@[t].0) by {
                                if t != target {
                                    assert(before.contains_key(t));
                                    assert(replacements@[t] == before[t]);
                                    assert(before[t].0 != target);
                                }
                            }
                            assert forall|i: int| 0 <= i < units@.len() implies !replacements@.contains_key(
                                (#[trigger] units@[i]).spec_var() as usize,
                            ) by {
                                assert(!before.contains_key(units@[i].spec_var() as usize));
                                assert(units@[i].spec_var() != target);
                            }
                        }
                        assert forall|w: usize| #[trigger] fixed@.contains(w) <==> is_fixed(units@, replacements@, w) by {
                            assert(fixed@.contains(w) <==> fixed_before.contains(w) || w == source);
                            if w == source {
                                assert(replacements@.contains_key(target) && replacements@[target].0 == w);
                            }
                            if is_fixed(units@, before, w) {
                                if exists|k: usize| #[trigger] before.contains_key(k) && before[k].0 == w {
                                    let k = choose|k: usize| #[trigger] before.contains_key(k) && before[k].0 == w;
                                    assert(k != target);
                                    assert(replacements@.contains_key(k) && replacements@[k].0 == w);
                                }
                            }
                            if is_fixed(units@, replacements@, w) && w != source {
                                if exists|k: usize| #[trigger] replacements@.contains_key(k) && replacements@[k].0 == w {
                                    let k = choose|k: usize|
                                        #[trigger] replacements@.contains_key(k) && replacements@[k].0 == w;
                                    assert(k != target);
                                    assert(before.contains_key(k) && before[k].0 == w);
                                }
                                assert(is_fixed(units@, before, w));
                            }
                        }
                        assert forall|m: Seq<bool>|
                            m.len() == num_vars && units_hold(m, units@) && map_holds(replacements@, m) && all_hold(
                                m,
                                new_xor_clauses@,
                            ) implies #[trigger] first_rows_hold(m, matrix@, r + 1) by {
                            assert(map_holds(before, m)) by {
                                assert forall|t: usize| #[trigger] before.contains_key(t) implies t < m.len() && before[t].0
                                    < m.len() && m[t as int] == (m[before[t].0 as int] != before[t].1) by {
                                    assert(replacements@.contains_key(t));
                                    assert(t != target);
                                    assert(replacements@[t] == before[t]);
                                }
                            }
                            assert(first_rows_hold(m, matrix@, r as int));
                            assert(replacements@.contains_key(target));
                            assert(m[v2 as int] == (m[v1 as int] != row.rhs));
                            let one = vars@.drop_last();
                            assert(one.drop_last() =~= Seq::<usize>::empty());
                            assert(parity(m, one.drop_last()) == false);
                            assert(one.last() == v1);
                            assert(vars@.last() == v2);
                            assert(parity(m, one) == (parity(m, one.drop_last()) != m[one.last() as int]));
                            assert(parity(m, vars@) == (parity(m, one) != m[vars@.last() as int]));
                            assert(row.sum(m, num_vars as int) == parity(m, vars@));
                            assert(matrix@[r as int].holds(m));
                        }
                    }
                    proof {
                        assert forall|m: Seq<bool>| m.len() == num_vars && rows_hold(m, matrix@) implies !found_conflict
                            && #[trigger] derived_hold(m, units@, replacements@, new_xor_clauses@) by {
                            assert(derived_hold(m, units@, before, new_xor_clauses@));
                            assert(parity(m, vars@) == row.rhs);
                            let one = vars@.drop_last();
                            assert(one.drop_last() =~= Seq::<usize>::empty());
                            assert(parity(m, one.drop_last()) == false);
                            assert(one.last() == v1);
                            assert(vars@.last() == v2);
                            assert(vars@[0] < vars@[1]);
                            assert(parity(m, one) == (parity(m, one.drop_last()) != m[one.last() as int]));
                            assert(parity(m, vars@) == (parity(m, one) != m[vars@.last() as int]));
                            assert(m[v2 as int] == (m[v1 as int] != row.rhs));
                            assert(replacements@[target] == (source, row.rhs));
                            assert forall|t: usize| #[trigger] replacements@.contains_key(t) implies t < m.len()
                                && replacements@[t].0 < m.len() && m[t as int] == (m[replacements@[t].0 as int]
                                != replacements@[t].1) by {
                                if t != target {
                                    assert(before.contains_key(t));
                                }
                            }
                        }
                    }
                } else {
                    let mut cs = xor_to_cnf(vars.as_slice(), row.rhs);
                    let ghost before = new_xor_clauses@;
                    let ghost added = cs@;
                    let ghost k = two_to(vars@.len() as u64) as nat;
                    new_xor_clauses.append(&mut cs);
                    proof {
                        assert(lits_of(new_xor_clauses@) =~= lits_of(before) + xor_clauses(vars@, row.rhs, k));
                        {
                            assert forall|m: Seq<bool>|
                                m.len() == num_vars && units_hold(m, units@) && map_holds(replacements@, m) && all_hold(
                                    m,
                                    new_xor_clauses@,
                                ) implies #[trigger] first_rows_hold(m, matrix@, r + 1) by {
                                assert forall|c: int| 0 <= c < before.len() implies clause_holds(m, (#[trigger] before[c]).lits@) by {
                                    assert(new_xor_clauses@[c] == before[c]);
                                    assert(clause_holds(m, new_xor_clauses@[c].lits@));
                                }
                                assert(all_hold(m, before));
                                assert(first_rows_hold(m, matrix@, r as int));
                                let all = xor_clauses(vars@, row.rhs, k);
                                assert forall|c: int| 0 <= c < all.len() implies clause_holds(m, #[trigger] all[c]) by {
                                    assert(lits_of(added)[c] == added[c].lits@);
                                    assert(new_xor_clauses@[before.len() + c] == added[c]);
                                    assert(clause_holds(m, new_xor_clauses@[before.len() + c].lits@));
                                }
                                crate::preprocessing::subst::lemma_xor_clauses_back(vars@, row.rhs, m);
                                assert(row.sum(m, num_vars as int) == parity(m, vars@));
                                assert(matrix@[r as int].holds(m));
                            }
                        }
                        lemma_xor_clauses_range(vars@, row.rhs, k, n);
                        assert forall|c: int| 0 <= c < new_xor_clauses@.len() implies lits_in_range(
                            (#[trigger] new_xor_clauses@[c]).lits@,
                            n,
                        ) && !new_xor_clauses@[c].learned by {
                            if c < before.len() {
                                assert(new_xor_clauses@[c] == before[c]);
                            } else {
                                let a = c - before.len();
                                assert(new_xor_clauses@[c] == added[a]);
                                assert(lits_of(added)[a] == added[a].lits@);
                            }
                        }
                        assert forall|m: Seq<bool>| m.len() == num_vars && rows_hold(m, matrix@) implies !found_conflict
                            && #[trigger] derived_hold(m, units@, replacements@, new_xor_clauses@) by {
                            assert(derived_hold(m, units@, replacements@, before));
                            assert(parity(m, vars@) == row.rhs);
                            lemma_xor_clauses_hold(vars@, row.rhs, k, m);
                            assert forall|c: int| 0 <= c < new_xor_clauses@.len() implies clause_holds(
                                m,
                                (#[trigger] new_xor_clauses@[c]).lits@,
                            ) by {
                                if c < before.len() {
                                    assert(new_xor_clauses@[c] == before[c]);
                                } else {
                                    let a = c - before.len();
                                    assert(new_xor_clauses@[c] == added[a]);
                                    assert(lits_of(added)[a] == added[a].lits@);
                                }
                            }
                        }
                    }
                }
            }
        }
        r = r + 1;
    }
    proof {
        assert forall|m: Seq<bool>| m.len() == num_vars && #[trigger] rows_hold(m, matrix@) implies !found_conflict
            && derived_hold(m, units@, replacements@, new_xor_clauses@) by {
            if !derived_hold(m, units@, replacements@, new_xor_clauses@) {
                assert(false);
            }
        }
        if r < matrix@.len() {
            lemma_rows_read_stop(mv, r as int, matrix@.len() as int);
        }
        if !found_conflict && !too_wide {
            assert forall|m: Seq<bool>|
                m.len() == num_vars && units_hold(m, units@) && map_holds(replacements@, m) && all_hold(
                    m,
                    new_xor_clauses@,
                ) implies #[trigger] rows_hold(m, matrix@) by {
                assert(first_rows_hold(m, matrix@, r as int));
            }
        }
    }
    Derived { units, replacements, expanded: new_xor_clauses, conflict: found_conflict, too_wide }
}

/// The literals and the mark of each clause.
pub open spec fn clause_data(cs: Seq<Clause>) -> Seq<(Seq<Lit>, bool)> {
    Seq::new(cs.len(), |c: int| (cs[c].lits@, cs[c].learned))
}

/// The clause rewritten along the replacements, in normal form.
pub open spec fn rewritten(map: Map<usize, (usize, bool)>, ls: Seq<Lit>) -> Seq<Lit> {
    normal_form(Seq::new(ls.len(), |i: int| replaced(map, ls[i])))
}

/// What is kept of the first `k` clauses of `source`, added to `acc`: each
/// clause that `skip` does not mark is rewritten; a tautology is dropped, an
/// empty clause is a contradiction, which the flag records and after which
/// nothing is added, and any other clause is kept with its mark.
pub open spec fn kept(
    source: Seq<(Seq<Lit>, bool)>,
    skip: Seq<bool>,
    map: Map<usize, (usize, bool)>,
    acc: (Seq<(Seq<Lit>, bool)>, bool),
    k: int,
) -> (Seq<(Seq<Lit>, bool)>, bool)
    decreases k,
{
    if k <= 0 {
        acc
    } else {
        let d = kept(source, skip, map, acc, k - 1);
        let ls = rewritten(map, source[k - 1].0);
        if d.1 || skip[k - 1] || tautology(ls) {
            d
        } else if ls.len() == 0 {
            (d.0, true)
        } else {
            (d.0.push((ls, source[k - 1].1)), false)
        }
    }
}

/// Once a contradiction is recorded, nothing more is kept.
pub proof fn lemma_kept_stop(
    source: Seq<(Seq<Lit>, bool)>,
    skip: Seq<bool>,
    map: Map<usize, (usize, bool)>,
    acc: (Seq<(Seq<Lit>, bool)>, bool),
    k: int,
    later: int,
)
    requires
        0 <= k <= later,
        kept(source, skip, map, acc, k).1,
    ensures
        kept(source, skip, map, acc, later) == kept(source, skip, map, acc, k),
    decreases later - k,
{
    if later > k {
        lemma_kept_stop(source, skip, map, acc, k, later - 1);
    }
}

/// The matrix of the constraints over `n` variables.
pub open spec fn matrix_of(xors: Seq<(Seq<usize>, bool)>, n: nat) -> Seq<(Seq<bool>, bool)> {
    Seq::new(xors.len(), |r: int| (Seq::new(n, |k: int| xors[r].0.contains(k as usize)), xors[r].1))
}

/// The contradiction: a single empty clause, no unit and no replacement.
pub open spec fn contradiction_data() -> (Seq<(Seq<Lit>, bool)>, Seq<Lit>, Seq<(usize, usize, bool)>) {
    (seq![(Seq::<Lit>::empty(), false)], Seq::<Lit>::empty(), Seq::<(usize, usize, bool)>::empty())
}

/// The literals of each clause of the data.
pub open spec fn lits_part(data: Seq<(Seq<Lit>, bool)>) -> Seq<Seq<Lit>> {
    Seq::new(data.len(), |c: int| data[c].0)
}

/// Which clause is marked as used up by a constraint.
pub open spec fn used_marks(cs: Seq<Seq<Lit>>, n: nat) -> Seq<bool> {
    Seq::new(cs.len(), |c: int| used_by(cs, c, n as int))
}

/// What preprocessing returns for the clauses over `n` variables: the
/// clauses and units of the new database and the replacements made, or
/// `None` when nothing is gained.
/// The constraints found give the rows of a matrix, which is reduced and read.
/// Nothing is gained if there is no constraint or a row is too wide. A row that is
/// a contradiction gives the contradiction. Else the clauses that no constraint
/// used up, and then the clauses of the rows, are rewritten and kept; an
/// empty clause among them gives the contradiction; and nothing is gained
/// if there are no fewer clauses than before, no unit and no replacement.
pub open spec fn preprocessed(clauses: Seq<(Seq<Lit>, bool)>, n: nat) -> Option<
    (Seq<(Seq<Lit>, bool)>, Seq<Lit>, Seq<(usize, usize, bool)>),
> {
    let xors = constraints_upto(lits_part(clauses), n as int);
    let rows = reduced(matrix_of(xors, n), 0, 0, n as int);
    let d = rows_read(rows, rows.len() as int);
    let first = kept(clauses, used_marks(lits_part(clauses), n), d.1, (Seq::empty(), false), clauses.len() as int);
    let expanded = Seq::new(d.2.len(), |c: int| (d.2[c], false));
    let both = kept(expanded, Seq::new(d.2.len(), |c: int| false), d.1, first, d.2.len() as int);
    if xors.len() == 0 || d.4 {
        None
    } else if d.3 || first.1 || both.1 {
        Some(contradiction_data())
    } else if both.0.len() >= clauses.len() && d.0.len() == 0 && d.1.is_empty() {
        None
    } else {
        Some((both.0, d.0, links_of(d.1, n as int)))
    }
}

/// Of the first `k` clauses, those that `skip` does not mark hold in `m`.
pub open spec fn kept_hold(m: Seq<bool>, cs: Seq<Clause>, skip: Seq<bool>, k: int) -> bool {
    forall|c: int| 0 <= c < k && !skip[c] ==> clause_holds(m, (#[trigger] cs[c]).lits@)
}

/// The first `k` clauses hold in `m`.
pub open spec fn first_hold(m: Seq<bool>, cs: Seq<Clause>, k: int) -> bool {
    forall|c: int| 0 <= c < k ==> clause_holds(m, (#[trigger] cs[c]).lits@)
}

/// The single empty clause that stands for a contradiction.
pub fn contradiction_result() -> (r: PreprocessResult)
    ensures
        contradiction(r),
        forall|n: nat| result_ok(r, n),
        replaced_nowhere(r),
        (clause_data(r.clauses@), r.units@, r.replacements@) == contradiction_data(),
        forall|m: Seq<bool>| !#[trigger] all_hold(m, r.clauses@),
{
    let mut clauses: Vec<Clause> = Vec::new();
    clauses.push(Clause { lits: Vec::new(), learned: false });
    let r = PreprocessResult { clauses, units: Vec::new(), replacements: Vec::new() };
    proof {
        assert forall|n: nat| result_ok(r, n) by {
            assert(clauses_ok(r.clauses@, n));
            assert(links_ok(r.replacements@, n));
        }
        assert(clause_data(r.clauses@) =~= contradiction_data().0);
        assert(r.units@ =~= contradiction_data().1);
        assert(r.replacements@ =~= contradiction_data().2);
        assert forall|m: Seq<bool>| !#[trigger] all_hold(m, r.clauses@) by {
            if all_hold(m, r.clauses@) {
                assert(clause_holds(m, r.clauses@[0].lits@));
            }
        }
    }
    r
}

/// Rewrites the literals of a clause along the replacements and brings the
/// result into normal form. Returns whether the result is a tautology.
pub fn rewrite_clause(lits: &Vec<Lit>, map: &HashMap<usize, (usize, bool)>, num_vars: usize) -> (r: (Vec<Lit>, bool))
    requires
        num_vars <= MAX_VARS,
        lits_in_range(lits@, num_vars as nat),
        map_in_range(map@, num_vars as nat),
    ensures
        r.0@ == rewritten(map@, lits@),
        lits_in_range(r.0@, num_vars as nat),
        strictly_sorted(r.0@),
        r.1 == tautology(r.0@),
        r.0@.len() == 0 <==> lits@.len() == 0,
        forall|m: Seq<bool>|
            m.len() == num_vars && map_holds(map@, m) && clause_holds(m, lits@) ==> #[trigger] clause_holds(m, r.0@),
        forall|m: Seq<bool>|
            m.len() == num_vars && map_holds(map@, m) && #[trigger] clause_holds(m, r.0@) ==> clause_holds(m, lits@),
        r.1 ==> forall|m: Seq<bool>| m.len() == num_vars && #[trigger] map_holds(map@, m) ==> clause_holds(m, lits@),
        (forall|k: usize| #[trigger] map@.contains_key(k) ==> !map@.contains_key(map@[k].0)) ==> clause_free(r.0@, map@),
{
    let mut new_lits = apply_replacements(lits.as_slice(), map);
    let ghost replaced = new_lits@;
    let taut = simplify_clause(&mut new_lits);
    proof {
        assert(replaced =~= Seq::new(lits@.len(), |i: int| crate::preprocessing::subst::replaced(map@, lits@[i])));
        lemma_replaced_range(map@, lits@, replaced, num_vars as nat);
        lemma_normal_form_same(new_lits@, replaced);
        crate::preprocessing::subst::lemma_tautology_same(new_lits@, replaced);
        assert forall|m: Seq<bool>| m.len() == num_vars && map_holds(map@, m) && clause_holds(m, lits@) implies #[trigger] clause_holds(
            m,
            new_lits@,
        ) by {
            lemma_replaced_clause(map@, lits@, replaced, m);
        }
        assert forall|m: Seq<bool>|
            m.len() == num_vars && map_holds(map@, m) && #[trigger] clause_holds(m, new_lits@) implies clause_holds(
            m,
            lits@,
        ) by {
            let k = choose|k: int| 0 <= k < new_lits@.len() && #[trigger] lit_holds(m, new_lits@[k]);
            assert(new_lits@.contains(new_lits@[k]));
            assert(replaced.contains(new_lits@[k]));
            let j = choose|j: int| 0 <= j < replaced.len() && replaced[j] == new_lits@[k];
            assert(lit_holds(m, replaced[j]));
            crate::preprocessing::subst::lemma_replaced_clause_back(map@, lits@, replaced, m);
        }
        if forall|k: usize| #[trigger] map@.contains_key(k) ==> !map@.contains_key(map@[k].0) {
            assert forall|i: int| 0 <= i < new_lits@.len() implies !map@.contains_key(
                (#[trigger] new_lits@[i]).spec_var() as usize,
            ) by {
                assert(new_lits@.contains(new_lits@[i]));
                assert(replaced.contains(new_lits@[i]));
                let j = choose|j: int| 0 <= j < replaced.len() && replaced[j] == new_lits@[i];
                crate::preprocessing::subst::lemma_replaced_free(map@, lits@[j]);
            }
        }
        if taut {
            assert forall|m: Seq<bool>| m.len() == num_vars && #[trigger] map_holds(map@, m) implies clause_holds(
                m,
                lits@,
            ) by {
                crate::preprocessing::subst::lemma_tautology_holds(replaced, m);
                crate::preprocessing::subst::lemma_replaced_clause_back(map@, lits@, replaced, m);
            }
        }
    }
    (new_lits, taut)
}

/// Preprocesses the clause database. XOR constraints are extracted and
/// reduced by Gaussian elimination; the rows of the result give units,
/// replacements of one variable by another, and clauses of short XORs. The
/// clauses that were not used up, and the new ones, are rewritten along the
/// replacements, normalised, and kept unless they are tautologies.
///
/// Returns `None` when nothing is gained: no constraint was found, a row
/// has more than twelve variables, or there is neither a unit nor a
/// replacement nor fewer clauses than before. A contradiction is returned
/// as a single empty clause.
pub fn preprocess(clauses: &Vec<Clause>, num_vars: usize) -> (r: Option<PreprocessResult>)
    requires
        num_vars <= MAX_VARS,
        forall|c: int| 0 <= c < clauses@.len() ==> lits_in_range((#[trigger] clauses@[c]).lits@, num_vars as nat),
    ensures
        r is Some ==> result_ok(r->0, num_vars as nat),
        r is Some ==> forall|m: Seq<bool>| #[trigger]
            is_model(m, clauses@, num_vars as nat) ==> all_hold(m, (r->0).clauses@) && units_hold(m, (r->0).units@),
        r is Some ==> forall|m: Seq<bool>| #[trigger]
            is_model(m, clauses@, num_vars as nat) ==> links_hold(m, (r->0).replacements@),
        r is Some ==> forall|m: Seq<bool>|
            m.len() == num_vars && all_hold(m, (r->0).clauses@) && units_hold(m, (r->0).units@) && links_hold(
                m,
                (r->0).replacements@,
            ) ==> #[trigger] all_hold(m, clauses@),
        r is Some ==> replaced_nowhere(r->0),
        r is Some ==> forall|m: Seq<bool>|
            m.len() == num_vars && all_hold(m, (r->0).clauses@) && units_hold(m, (r->0).units@) ==> #[trigger] all_hold(
                extended(m, (r->0).replacements@),
                clauses@,
            ),
        match r {
            Some(result) => preprocessed(clause_data(clauses@), num_vars as nat) == Some(
                (clause_data(result.clauses@), result.units@, result.replacements@),
            ),
            None => preprocessed(clause_data(clauses@), num_vars as nat) is None,
        },
{
    broadcast use vstd::std_specs::hash::group_hash_axioms;

    let ghost n = num_vars as nat;
    let (xors, indices_to_remove) = extract_semantic_xors(clauses, num_vars);
    let ghost cs = lits_of(clauses@);
    let ghost gs = constraints_upto(cs, n as int);
    proof {
        assert(xor_views(xors@).len() == xors@.len());
        assert(lits_part(clause_data(clauses@)) =~= cs);
    }
    if xors.len() == 0 {
        return None;
    }
    let mut matrix = build_matrix(&xors, num_vars);
    let ghost built = matrix@;
    gaussian_eliminate(&mut matrix, num_vars);
    let ghost rows = reduced(matrix_of(gs, n), 0, 0, n as int);
    proof {
        assert(matrix_view(built, n) =~= matrix_of(gs, n)) by {
            assert forall|r: int| 0 <= r < built.len() implies matrix_view(built, n)[r] == matrix_of(gs, n)[r] by {
                assert(row_view(built[r], n) == crate::preprocessing::gauss::row_of(xors@[r], n));
                assert(xor_views(xors@)[r] == (xors@[r].vars@, xors@[r].rhs));
                assert(crate::preprocessing::gauss::row_of(xors@[r], n).0 =~= matrix_of(gs, n)[r].0);
            }
        }
        assert(matrix_view(matrix@, n) == rows);
        assert(rows.len() == matrix@.len());
    }
    proof {
        assert forall|m: Seq<bool>| #[trigger] is_model(m, clauses@, n) implies rows_hold(m, matrix@) by {
            assert(xors_hold(m, xors@));
            assert forall|q: int| 0 <= q < built.len() implies (#[trigger] built[q]).holds(m) by {
                assert(built[q].holds(m) == (parity(m, xors@[q].vars@) == xors@[q].rhs));
            }
            assert(rows_hold(m, built));
        }
    }
    let derived = read_rows(&matrix, num_vars);
    let ghost d = rows_read(rows, rows.len() as int);
    if derived.too_wide {
        return None;
    }
    if derived.conflict {
        proof {
            assert forall|m: Seq<bool>| #[trigger] is_model(m, clauses@, n) implies false by {
                assert(rows_hold(m, matrix@));
            }
        }
        return Some(contradiction_result());
    }
    let units = derived.units;
    let replacements = derived.replacements;
    let new_xor_clauses = derived.expanded;
    proof {
        assert forall|m: Seq<bool>| #[trigger] is_model(m, clauses@, n) implies derived_hold(
            m,
            units@,
            replacements@,
            new_xor_clauses@,
        ) by {
            assert(rows_hold(m, matrix@));
        }
    }

    let mut removed: HashSet<usize> = HashSet::new();
    let mut e: usize = 0;
    while e < indices_to_remove.len()
        invariant
            0 <= e <= indices_to_remove@.len(),
            forall|c: usize| #[trigger]
                removed@.contains(c) <==> exists|q: int| 0 <= q < e && #[trigger] indices_to_remove@[q] == c,
        decreases indices_to_remove.len() - e,
    {
        let ghost before = removed@;
        removed.insert(indices_to_remove[e]);
        proof {
            assert forall|c: usize| #[trigger]
                removed@.contains(c) <==> exists|q: int| 0 <= q < e + 1 && #[trigger] indices_to_remove@[q] == c by {
                if removed@.contains(c) {
                    if c == indices_to_remove@[e as int] {
                        assert(0 <= e < e + 1 && indices_to_remove@[e as int] == c);
                    } else {
                        assert(before.contains(c));
                        let q = choose|q: int| 0 <= q < e && #[trigger] indices_to_remove@[q] == c;
                        assert(0 <= q < e + 1 && indices_to_remove@[q] == c);
                    }
                }
                if exists|q: int| 0 <= q < e + 1 && #[trigger] indices_to_remove@[q] == c {
                    let q = choose|q: int| 0 <= q < e + 1 && #[trigger] indices_to_remove@[q] == c;
                    if q < e {
                        assert(before.contains(c));
                    }
                }
            }
        }
        e = e + 1;
    }
    let ghost marks = used_marks(cs, n);
    let ghost source = clause_data(clauses@);
    proof {
        assert(clauses.len() == clauses@.len());
        assert forall|c: usize| c < clauses@.len() implies #[trigger] removed@.contains(c) == marks[c as int] by {
            if removed@.contains(c) {
                let q = choose|q: int| 0 <= q < indices_to_remove@.len() && #[trigger] indices_to_remove@[q] == c;
                assert(indices_to_remove@.contains(c));
            }
            if marks[c as int] {
                assert(indices_to_remove@.contains(c));
            }
        }
    }

    let mut final_clauses: Vec<Clause> = Vec::with_capacity(clauses.len());
    proof {
        assert(clause_data(final_clauses@) =~= Seq::<(Seq<Lit>, bool)>::empty());
    }
    let mut i: usize = 0;
    while i < clauses.len()
        invariant
            n == num_vars,
            num_vars <= MAX_VARS,
            0 <= i <= clauses@.len(),
            marks.len() == clauses@.len(),
            forall|c: usize| c < clauses@.len() ==> #[trigger] removed@.contains(c) == marks[c as int],
            source == clause_data(clauses@),
            cs == lits_of(clauses@),
            cs == lits_part(clause_data(clauses@)),
            gs == constraints_upto(cs, n as int),
            gs.len() > 0,
            rows == reduced(matrix_of(gs, n), 0, 0, n as int),
            d == rows_read(rows, rows.len() as int),
            !d.3 && !d.4,
            d.1 == replacements@,
            d.0 == units@,
            d.2 == lits_of(new_xor_clauses@),
            marks == used_marks(cs, n),
            (clause_data(final_clauses@), false) == kept(source, marks, replacements@, (Seq::empty(), false), i as int),
            forall|m: Seq<bool>|
                m.len() == n && map_holds(replacements@, m) && all_hold(m, final_clauses@) ==> #[trigger] kept_hold(
                    m,
                    clauses@,
                    marks,
                    i as int,
                ),
            forall|c: int| 0 <= c < clauses@.len() ==> lits_in_range((#[trigger] clauses@[c]).lits@, n),
            map_in_range(replacements@, n),
            clauses_ok(final_clauses@, n),
            all_free(final_clauses@, replacements@),
            replaced_apart(units@, replacements@),
            forall|c: int|
                0 <= c < final_clauses@.len() ==> (#[trigger] final_clauses@[c]).lits@.len() > 0 && !tautology(
                    final_clauses@[c].lits@,
                ),
            forall|m: Seq<bool>| #[trigger]
                is_model(m, clauses@, n) ==> derived_hold(m, units@, replacements@, new_xor_clauses@) && all_hold(
                    m,
                    final_clauses@,
                ),
        decreases clauses.len() - i,
    {
        let ghost before_all = final_clauses@;
        let ghost mut nl = Seq::<Lit>::empty();
        let ghost mut was_taut = false;
        if !removed.contains(&i) {
            let c = &clauses[i];
            let (new_lits, taut) = rewrite_clause(&c.lits, &replacements, num_vars);
            proof {
                nl = new_lits@;
                was_taut = taut;
            }
            if !taut {
                if new_lits.is_empty() {
                    proof {
                        assert forall|m: Seq<bool>| #[trigger] is_model(m, clauses@, n) implies false by {
                            assert(clause_holds(m, clauses@[i as int].lits@));
                        }
                        assert(kept(source, marks, replacements@, (Seq::empty(), false), i + 1).1);
                        lemma_kept_stop(source, marks, replacements@, (Seq::empty(), false), i + 1, clauses@.len() as int);
                    }
                    return Some(contradiction_result());
                }
                let ghost before = final_clauses@;
                let ghost added = new_lits@;
                final_clauses.push(Clause { lits: new_lits, learned: c.learned });
                proof {
                    assert(clause_data(final_clauses@) =~= clause_data(before).push((added, c.learned)));
                    lemma_pushed_ok(before, final_clauses@, added, n);
                    assert(all_free(final_clauses@, replacements@)) by {
                        assert forall|c: int| 0 <= c < final_clauses@.len() implies clause_free(
                            (#[trigger] final_clauses@[c]).lits@,
                            replacements@,
                        ) by {
                            if c < before.len() {
                                assert(final_clauses@[c] == before[c]);
                            }
                        }
                    }
                    assert forall|m: Seq<bool>| #[trigger] is_model(m, clauses@, n) implies derived_hold(
                        m,
                        units@,
                        replacements@,
                        new_xor_clauses@,
                    ) && all_hold(m, final_clauses@) by {
                        assert(all_hold(m, before));
                        assert(clause_holds(m, clauses@[i as int].lits@));
                        assert(clause_holds(m, added));
                        lemma_pushed_hold(before, final_clauses@, added, m);
                    }
                }
            }
        }
        proof {
            {
                assert forall|m: Seq<bool>|
                    m.len() == n && map_holds(replacements@, m) && all_hold(m, final_clauses@) implies #[trigger] kept_hold(
                    m,
                    clauses@,
                    marks,
                    i + 1,
                ) by {
                    assert forall|c: int| 0 <= c < before_all.len() implies clause_holds(m, (#[trigger] before_all[c]).lits@) by {
                        assert(final_clauses@[c] == before_all[c]);
                        assert(clause_holds(m, final_clauses@[c].lits@));
                    }
                    assert(all_hold(m, before_all));
                    assert(kept_hold(m, clauses@, marks, i as int));
                    if !marks[i as int] {
                        let ls = clauses@[i as int].lits@;
                        if !was_taut {
                            assert(final_clauses@[before_all.len() as int].lits@ == nl);
                            assert(clause_holds(m, final_clauses@[before_all.len() as int].lits@));
                            assert(clause_holds(m, nl));
                        }
                        assert(clause_holds(m, ls));
                    }
                }
            }
        }
        i = i + 1;
    }

    let ghost first = kept(source, marks, replacements@, (Seq::empty(), false), clauses@.len() as int);
    let ghost expanded = Seq::new(d.2.len(), |c: int| (d.2[c], false));
    let ghost none = Seq::new(d.2.len(), |c: int| false);
    let mut x: usize = 0;
    while x < new_xor_clauses.len()
        invariant
            n == num_vars,
            num_vars <= MAX_VARS,
            0 <= x <= new_xor_clauses@.len(),
            source == clause_data(clauses@),
            cs == lits_of(clauses@),
            cs == lits_part(clause_data(clauses@)),
            gs == constraints_upto(cs, n as int),
            gs.len() > 0,
            rows == reduced(matrix_of(gs, n), 0, 0, n as int),
            d == rows_read(rows, rows.len() as int),
            !d.3 && !d.4,
            d.1 == replacements@,
            d.0 == units@,
            d.2 == lits_of(new_xor_clauses@),
            marks == used_marks(cs, n),
            first == kept(source, marks, replacements@, (Seq::empty(), false), clauses@.len() as int),
            !first.1,
            expanded == Seq::new(d.2.len(), |c: int| (d.2[c], false)),
            none == Seq::new(d.2.len(), |c: int| false),
            (clause_data(final_clauses@), false) == kept(expanded, none, replacements@, first, x as int),
            marks.len() == clauses@.len(),
            forall|m: Seq<bool>|
                m.len() == n && map_holds(replacements@, m) && all_hold(m, final_clauses@) ==> #[trigger] kept_hold(
                    m,
                    clauses@,
                    marks,
                    clauses@.len() as int,
                ),
            forall|m: Seq<bool>|
                m.len() == n && map_holds(replacements@, m) && all_hold(m, final_clauses@) ==> #[trigger] first_hold(
                    m,
                    new_xor_clauses@,
                    x as int,
                ),
            forall|c: int| 0 <= c < new_xor_clauses@.len() ==> lits_in_range((#[trigger] new_xor_clauses@[c]).lits@, n),
            map_in_range(replacements@, n),
            clauses_ok(final_clauses@, n),
            all_free(final_clauses@, replacements@),
            replaced_apart(units@, replacements@),
            forall|c: int|
                0 <= c < final_clauses@.len() ==> (#[trigger] final_clauses@[c]).lits@.len() > 0 && !tautology(
                    final_clauses@[c].lits@,
                ),
            forall|m: Seq<bool>| #[trigger]
                is_model(m, clauses@, n) ==> derived_hold(m, units@, replacements@, new_xor_clauses@) && all_hold(
                    m,
                    final_clauses@,
                ),
        decreases new_xor_clauses.len() - x,
    {
        let ghost before_all = final_clauses@;
        let c = &new_xor_clauses[x];
        let (new_lits, taut) = rewrite_clause(&c.lits, &replacements, num_vars);
        let ghost nl = new_lits@;
        if !taut {
            if new_lits.is_empty() {
                proof {
                    assert forall|m: Seq<bool>| #[trigger] is_model(m, clauses@, n) implies false by {
                        assert(derived_hold(m, units@, replacements@, new_xor_clauses@));
                        assert(clause_holds(m, new_xor_clauses@[x as int].lits@));
                    }
                    assert(kept(expanded, none, replacements@, first, x + 1).1);
                    lemma_kept_stop(expanded, none, replacements@, first, x + 1, d.2.len() as int);
                }
                return Some(contradiction_result());
            }
            let ghost before = final_clauses@;
            let ghost added = new_lits@;
            final_clauses.push(Clause { lits: new_lits, learned: false });
            proof {
                assert(clause_data(final_clauses@) =~= clause_data(before).push((added, false)));
                lemma_pushed_ok(before, final_clauses@, added, n);
                    assert(all_free(final_clauses@, replacements@)) by {
                        assert forall|c: int| 0 <= c < final_clauses@.len() implies clause_free(
                            (#[trigger] final_clauses@[c]).lits@,
                            replacements@,
                        ) by {
                            if c < before.len() {
                                assert(final_clauses@[c] == before[c]);
                            }
                        }
                    }
                assert forall|m: Seq<bool>| #[trigger] is_model(m, clauses@, n) implies derived_hold(
                    m,
                    units@,
                    replacements@,
                    new_xor_clauses@,
                ) && all_hold(m, final_clauses@) by {
                    assert(all_hold(m, before));
                    assert(clause_holds(m, new_xor_clauses@[x as int].lits@));
                    assert(clause_holds(m, added));
                    lemma_pushed_hold(before, final_clauses@, added, m);
                }
            }
        }
        proof {
            {
                assert forall|m: Seq<bool>|
                    m.len() == n && map_holds(replacements@, m) && all_hold(m, final_clauses@) implies #[trigger] kept_hold(
                    m,
                    clauses@,
                    marks,
                    clauses@.len() as int,
                ) by {
                    assert forall|c: int| 0 <= c < before_all.len() implies clause_holds(m, (#[trigger] before_all[c]).lits@) by {
                        assert(final_clauses@[c] == before_all[c]);
                        assert(clause_holds(m, final_clauses@[c].lits@));
                    }
                    assert(all_hold(m, before_all));
                }
                assert forall|m: Seq<bool>|
                    m.len() == n && map_holds(replacements@, m) && all_hold(m, final_clauses@) implies #[trigger] first_hold(
                    m,
                    new_xor_clauses@,
                    x + 1,
                ) by {
                    assert forall|c: int| 0 <= c < before_all.len() implies clause_holds(m, (#[trigger] before_all[c]).lits@) by {
                        assert(final_clauses@[c] == before_all[c]);
                        assert(clause_holds(m, final_clauses@[c].lits@));
                    }
                    assert(all_hold(m, before_all));
                    assert(m.len() == n);
                    assert(first_hold(m, new_xor_clauses@, x as int));
                    let ls = new_xor_clauses@[x as int].lits@;
                    if !taut {
                        assert(final_clauses@[before_all.len() as int].lits@ == nl);
                        assert(clause_holds(m, final_clauses@[before_all.len() as int].lits@));
                        assert(clause_holds(m, nl));
                    }
                    assert(clause_holds(m, ls));
                }
            }
        }
        x = x + 1;
    }

    if final_clauses.len() >= clauses.len() && units.is_empty() && replacements.is_empty() {
        return None;
    }
    let mut links: Vec<(usize, usize, bool)> = Vec::new();
    let mut v: usize = 0;
    while v < num_vars
        invariant
            0 <= v <= num_vars,
            links@ == links_of(replacements@, v as int),
        decreases num_vars - v,
    {
        match replacements.get(&v) {
            Some(p) => {
                links.push((v, p.0, p.1));
            },
            None => {},
        }
        v = v + 1;
    }
    let result = PreprocessResult { clauses: final_clauses, units, replacements: links };
    proof {
        lemma_links(replacements@, n as int, n);
        assert forall|m: Seq<bool>| m.len() == n implies links_hold(m, result.replacements@) == #[trigger] map_holds(
            replacements@,
            m,
        ) by {
            lemma_links_hold(replacements@, n, m);
        }
        assert(replaced_nowhere(result)) by {
            let ls = result.replacements@;
            assert forall|i: int| 0 <= i < ls.len() implies {
                let t = (#[trigger] ls[i]).0;
                &&& forall|c: int, k: int|
                    0 <= c < result.clauses@.len() && 0 <= k < result.clauses@[c].lits@.len() ==> (#[trigger] result.clauses@[c].lits@[k]).spec_var()
                        != t
                &&& forall|u: int| 0 <= u < result.units@.len() ==> (#[trigger] result.units@[u]).spec_var() != t
                &&& forall|j: int| 0 <= j < ls.len() ==> (#[trigger] ls[j]).1 != t
            } by {
                let t = ls[i].0;
                assert(replacements@.contains_key(t));
                assert forall|c: int, k: int|
                    0 <= c < result.clauses@.len() && 0 <= k < result.clauses@[c].lits@.len() implies (#[trigger] result.clauses@[c].lits@[k]).spec_var()
                    != t by {
                    assert(clause_free(result.clauses@[c].lits@, replacements@));
                }
                assert forall|j: int| 0 <= j < ls.len() implies (#[trigger] ls[j]).1 != t by {
                    assert(replacements@.contains_key(ls[j].0));
                    assert(replacements@[ls[j].0].0 == ls[j].1);
                }
            }
        }
        {
            assert forall|m: Seq<bool>|
                m.len() == num_vars && all_hold(m, result.clauses@) && units_hold(m, result.units@) && links_hold(
                    m,
                    result.replacements@,
                ) implies #[trigger] all_hold(m, clauses@) by {
                assert(map_holds(replacements@, m));
                assert(kept_hold(m, clauses@, marks, clauses@.len() as int));
                assert(first_hold(m, new_xor_clauses@, new_xor_clauses@.len() as int));
                assert(all_hold(m, new_xor_clauses@));
                assert(rows_hold(m, matrix@));
                assert(rows_hold(m, built));
                assert(xors_hold(m, xors@)) by {
                    assert forall|x: int| 0 <= x < xors@.len() implies parity(m, (#[trigger] xors@[x]).vars@)
                        == xors@[x].rhs by {
                        assert(built[x].holds(m));
                        assert(built[x].holds(m) == (parity(m, xors@[x].vars@) == xors@[x].rhs));
                    }
                }
                assert forall|c: int| 0 <= c < clauses@.len() implies clause_holds(m, (#[trigger] clauses@[c]).lits@) by {
                    if marks[c] {
                        assert(indices_to_remove@.contains(c as usize));
                        let e = choose|e: int| 0 <= e < indices_to_remove@.len() && indices_to_remove@[e] == c as usize;
                        assert(crate::preprocessing::extract::implied_by_some(
                            xors@,
                            clauses@[indices_to_remove@[e] as int].lits@,
                            n,
                        ));
                        let x = choose|x: int|
                            0 <= x < xors@.len() && crate::preprocessing::extract::implies_clause(
                                (#[trigger] xors@[x]).vars@,
                                xors@[x].rhs,
                                clauses@[c].lits@,
                                n,
                            );
                        assert(parity(m, xors@[x].vars@) == xors@[x].rhs);
                    }
                }
            }
        }
        assert forall|m: Seq<bool>|
            m.len() == num_vars && all_hold(m, result.clauses@) && units_hold(m, result.units@) implies #[trigger] all_hold(
            extended(m, result.replacements@),
            clauses@,
        ) by {
            let m2 = extended(m, result.replacements@);
            assert forall|l: Lit| l.spec_var() < n && !replacements@.contains_key(l.spec_var() as usize) implies lit_holds(
                m2,
                l,
            ) == #[trigger] lit_holds(m, l) by {
                lemma_extended(replacements@, n, m, l.spec_var());
            }
            if n > 0 {
                lemma_extended(replacements@, n, m, 0);
            }
            assert(m2.len() == n);
            assert forall|c: int| 0 <= c < result.clauses@.len() implies clause_holds(
                m2,
                (#[trigger] result.clauses@[c]).lits@,
            ) by {
                let ls = result.clauses@[c].lits@;
                assert(clause_holds(m, ls));
                let k = choose|k: int| 0 <= k < ls.len() && #[trigger] lit_holds(m, ls[k]);
                assert(clause_free(ls, replacements@));
                assert(lits_in_range(ls, n));
                assert(lit_holds(m2, ls[k]));
            }
            assert forall|u: int| 0 <= u < result.units@.len() implies lit_holds(m2, #[trigger] result.units@[u]) by {
                assert(lit_holds(m, result.units@[u]));
            }
            assert(map_holds(replacements@, m2)) by {
                assert forall|t: usize| #[trigger] replacements@.contains_key(t) implies t < m2.len() && replacements@[t].0
                    < m2.len() && m2[t as int] == (m2[replacements@[t].0 as int] != replacements@[t].1) by {
                    lemma_extended(replacements@, n, m, t as int);
                    lemma_extended(replacements@, n, m, replacements@[t].0 as int);
                }
            }
            lemma_links_hold(replacements@, n, m2);
            assert(links_hold(m2, result.replacements@));
            assert(all_hold(m2, result.clauses@));
            assert(units_hold(m2, result.units@));
        }
        assert forall|m: Seq<bool>| #[trigger] is_model(m, clauses@, n) implies all_hold(m, result.clauses@)
            && units_hold(m, result.units@) && links_hold(m, result.replacements@) by {
            assert(derived_hold(m, units@, replacements@, new_xor_clauses@));
            assert(map_holds(replacements@, m));
        }
    }
    Some(result)
}

/// Appending a clause in normal form and in range keeps the clauses so.
pub proof fn lemma_pushed_ok(before: Seq<Clause>, after: Seq<Clause>, added: Seq<Lit>, n: nat)
    requires
        clauses_ok(before, n),
        forall|c: int| 0 <= c < before.len() ==> (#[trigger] before[c]).lits@.len() > 0 && !tautology(before[c].lits@),
        after.len() == before.len() + 1,
        forall|c: int| 0 <= c < before.len() ==> #[trigger] after[c] == before[c],
        after[before.len() as int].lits@ == added,
        lits_in_range(added, n),
        strictly_sorted(added),
        added.len() > 0,
        !tautology(added),
    ensures
        clauses_ok(after, n),
        forall|c: int| 0 <= c < after.len() ==> (#[trigger] after[c]).lits@.len() > 0 && !tautology(after[c].lits@),
{
    assert forall|c: int| 0 <= c < after.len() implies lits_in_range((#[trigger] after[c]).lits@, n) && strictly_sorted(
        after[c].lits@,
    ) && after[c].lits@.len() > 0 && !tautology(after[c].lits@) by {
        if c < before.len() {
            assert(after[c] == before[c]);
        }
    }
}

/// Appending a clause that holds keeps the clauses holding.
pub proof fn lemma_pushed_hold(before: Seq<Clause>, after: Seq<Clause>, added: Seq<Lit>, m: Seq<bool>)
    requires
        all_hold(m, before),
        after.len() == before.len() + 1,
        forall|c: int| 0 <= c < before.len() ==> #[trigger] after[c] == before[c],
        after[before.len() as int].lits@ == added,
        clause_holds(m, added),
    ensures
        all_hold(m, after),
{
    assert forall|c: int| 0 <= c < after.len() implies clause_holds(m, (#[trigger] after[c]).lits@) by {
        if c < before.len() {
            assert(after[c] == before[c]);
        }
    }
}

} // verus!
