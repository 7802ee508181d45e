//! The XOR constraints as a matrix over GF(2), and its reduction by
//! Gaussian elimination.

use vstd::prelude::*;
use crate::lit::MAX_VARS;
use crate::preprocessing::bitrow::{
    lemma_set_sum, lemma_test_chunk, lemma_xor_sum, lemma_zero_sum, BitRow,
};
use crate::preprocessing::extract::xor_ok;
use crate::preprocessing::{parity, XorConstraint};

verus! {

/// The row is as wide as `n` variables need and names variables below `n` only.
pub open spec fn row_ok(row: BitRow, n: nat) -> bool {
    &&& row.chunks@.len() == (n + 63) / 64
    &&& forall|k: int| #[trigger] row.bit(k) ==> k < n
}

pub open spec fn rows_ok(rows: Seq<BitRow>, n: nat) -> bool {
    forall|r: int| 0 <= r < rows.len() ==> row_ok(#[trigger] rows[r], n)
}

/// Every row holds in `m`.
pub open spec fn rows_hold(m: Seq<bool>, rows: Seq<BitRow>) -> bool {
    forall|r: int| 0 <= r < rows.len() ==> (#[trigger] rows[r]).holds(m)
}

/// The row holds in every model of `n` variables in which every row of
/// `given` holds.
pub open spec fn implied(row: BitRow, given: Seq<BitRow>, n: nat) -> bool {
    forall|m: Seq<bool>| m.len() == n && rows_hold(m, given) ==> #[trigger] row.holds(m)
}

/// The row of a constraint: the bits of its variables, and its right-hand side.
pub open spec fn row_of(x: XorConstraint, n: nat) -> (Seq<bool>, bool) {
    (Seq::new(n, |k: int| x.vars@.contains(k as usize)), x.rhs)
}

/// A row as a bit per variable below `n`, and its right-hand side.
pub open spec fn row_view(row: BitRow, n: nat) -> (Seq<bool>, bool) {
    (Seq::new(n, |k: int| row.bit(k)), row.rhs)
}

/// One row per constraint, with the bits of its variables set.
pub fn build_matrix(xors: &Vec<XorConstraint>, num_vars: usize) -> (matrix: Vec<BitRow>)
    requires
        num_vars <= MAX_VARS,
        forall|x: int| 0 <= x < xors@.len() ==> xor_ok(#[trigger] xors@[x], num_vars as nat),
    ensures
        matrix@.len() == xors@.len(),
        rows_ok(matrix@, num_vars as nat),
        forall|r: int| 0 <= r < matrix@.len() ==> row_view(#[trigger] matrix@[r], num_vars as nat) == row_of(xors@[r], num_vars as nat),
        forall|r: int, m: Seq<bool>|
            0 <= r < matrix@.len() && m.len() == num_vars ==> #[trigger] matrix@[r].holds(m) == (parity(m, xors@[r].vars@)
                == xors@[r].rhs),
{
    let mut matrix: Vec<BitRow> = Vec::with_capacity(xors.len());
    let mut x: usize = 0;
    while x < xors.len()
        invariant
            num_vars <= MAX_VARS,
            0 <= x <= xors@.len(),
            matrix@.len() == x,
            forall|x: int| 0 <= x < xors@.len() ==> xor_ok(#[trigger] xors@[x], num_vars as nat),
            rows_ok(matrix@, num_vars as nat),
            forall|r: int| 0 <= r < matrix@.len() ==> row_view(#[trigger] matrix@[r], num_vars as nat) == row_of(
                xors@[r],
                num_vars as nat,
            ),
            forall|r: int, m: Seq<bool>|
                0 <= r < matrix@.len() && m.len() == num_vars ==> #[trigger] matrix@[r].holds(m) == (parity(
                    m,
                    xors@[r].vars@,
                ) == xors@[r].rhs),
        decreases xors.len() - x,
    {
        let xor = &xors[x];
        let ghost vars = xor.vars@;
        let mut row = BitRow::new(num_vars, xor.rhs);
        proof {
            assert(xor_ok(xors@[x as int], num_vars as nat));
            assert forall|m: Seq<bool>| m.len() == num_vars implies #[trigger] row.sum(m, num_vars as int) == parity(
                m,
                vars.take(0),
            ) by {
                lemma_zero_sum(&row, m, num_vars as int);
                assert(vars.take(0) =~= Seq::<usize>::empty());
            }
        }
        let mut j: usize = 0;
        while j < xor.vars.len()
            invariant
                num_vars <= MAX_VARS,
                vars == xor.vars@,
                xor_ok(*xor, num_vars as nat),
                0 <= j <= vars.len(),
                row.rhs == xor.rhs,
                row.chunks@.len() == (num_vars + 63) / 64,
                forall|k: int| #[trigger] row.bit(k) <==> vars.take(j as int).contains(k as usize) && 0 <= k < num_vars,
                forall|m: Seq<bool>|
                    m.len() == num_vars ==> #[trigger] row.sum(m, num_vars as int) == parity(m, vars.take(j as int)),
            decreases xor.vars.len() - j,
        {
            let v = xor.vars[j];
            let ghost before = row;
            row.set_bit(v);
            proof {
                let t0 = vars.take(j as int);
                let t1 = vars.take(j + 1);
                assert(t1.drop_last() =~= t0);
                assert(t1.last() == v);
                assert(!before.bit(v as int)) by {
                    if before.bit(v as int) {
                        let e = choose|e: int| 0 <= e < t0.len() && t0[e] == v;
                        assert(vars[e] == vars[j as int]);
                    }
                }
                assert forall|k: int| #[trigger] row.bit(k) <==> t1.contains(k as usize) && 0 <= k < num_vars by {
                    if row.bit(k) {
                        if k == v {
                            assert(t1[j as int] == v);
                        } else {
                            assert(before.bit(k));
                            let e = choose|e: int| 0 <= e < t0.len() && t0[e] == k as usize;
                            assert(t1[e] == k as usize);
                        }
                    }
                    if t1.contains(k as usize) && 0 <= k < num_vars {
                        let e = choose|e: int| 0 <= e < t1.len() && t1[e] == k as usize;
                        if e < j {
                            assert(t0[e] == k as usize);
                            assert(before.bit(k));
                        }
                    }
                }
                assert forall|m: Seq<bool>| m.len() == num_vars implies #[trigger] row.sum(m, num_vars as int) == parity(
                    m,
                    t1,
                ) by {
                    assert(before.sum(m, num_vars as int) == parity(m, t0));
                    lemma_set_sum(&before, &row, v as int, m, num_vars as int);
                }
            }
            j = j + 1;
        }
        let ghost done = matrix@;
        proof {
            assert(vars.take(vars.len() as int) =~= vars);
        }
        matrix.push(row);
        proof {
            assert forall|r: int| 0 <= r < matrix@.len() implies row_ok(#[trigger] matrix@[r], num_vars as nat) by {
                if r < done.len() {
                    assert(matrix@[r] == done[r]);
                }
            }
            assert forall|r: int| 0 <= r < matrix@.len() implies row_view(#[trigger] matrix@[r], num_vars as nat) == row_of(
                xors@[r],
                num_vars as nat,
            ) by {
                if r < done.len() {
                    assert(matrix@[r] == done[r]);
                } else {
                    assert(row_view(row, num_vars as nat).0 =~= row_of(xors@[r], num_vars as nat).0);
                }
            }
            assert forall|r: int, m: Seq<bool>| 0 <= r < matrix@.len() && m.len() == num_vars implies #[trigger] matrix@[r].holds(
                m,
            ) == (parity(m, xors@[r].vars@) == xors@[r].rhs) by {
                if r < done.len() {
                    assert(matrix@[r] == done[r]);
                } else {
                    assert(row.sum(m, num_vars as int) == parity(m, vars));
                }
            }
        }
        x = x + 1;
    }
    matrix
}

/// The rows of a matrix over `n` variables.
pub open spec fn matrix_view(rows: Seq<BitRow>, n: nat) -> Seq<(Seq<bool>, bool)> {
    Seq::new(rows.len(), |r: int| row_view(rows[r], n))
}

/// The sum of two rows over GF(2).
pub open spec fn add_rows(a: (Seq<bool>, bool), b: (Seq<bool>, bool)) -> (Seq<bool>, bool) {
    (Seq::new(a.0.len(), |k: int| a.0[k] != b.0[k]), a.1 != b.1)
}

/// The first row from `from` on that has the bit of column `col`; the
/// height of the matrix if there is none.
pub open spec fn first_with(m: Seq<(Seq<bool>, bool)>, col: int, from: int) -> int
    decreases m.len() - from,
{
    if from >= m.len() || from < 0 {
        m.len() as int
    } else if m[from].0[col] {
        from
    } else {
        first_with(m, col, from + 1)
    }
}

/// The matrix with rows `a` and `b` exchanged.
pub open spec fn exchanged(m: Seq<(Seq<bool>, bool)>, a: int, b: int) -> Seq<(Seq<bool>, bool)> {
    m.update(a, m[b]).update(b, m[a])
}

/// The matrix after row `p` was added to each of the first `upto` rows,
/// other than itself, that had the bit of column `col`.
pub open spec fn cleared(m: Seq<(Seq<bool>, bool)>, col: int, p: int, upto: int) -> Seq<(Seq<bool>, bool)>
    decreases upto,
{
    if upto <= 0 {
        m
    } else {
        let prev = cleared(m, col, p, upto - 1);
        if upto - 1 != p && prev[upto - 1].0[col] {
            prev.update(upto - 1, add_rows(prev[upto - 1], prev[p]))
        } else {
            prev
        }
    }
}

/// The matrix after elimination on the columns from `col` on, with `p`
/// pivot rows in place: where a row at or below `p` has the column's bit, the
/// first such row is exchanged with row `p` and added to every other row that
/// has the bit.
pub open spec fn reduced(m: Seq<(Seq<bool>, bool)>, col: int, p: int, n: int) -> Seq<(Seq<bool>, bool)>
    decreases n - col,
{
    if col >= n || p >= m.len() || col < 0 {
        m
    } else {
        let r = first_with(m, col, p);
        if r < m.len() {
            reduced(cleared(exchanged(m, p, r), col, p, m.len() as int), col + 1, p + 1, n)
        } else {
            reduced(m, col + 1, p, n)
        }
    }
}

/// Clearing a column changes neither the height of the matrix nor its pivot row.
pub proof fn lemma_cleared(m: Seq<(Seq<bool>, bool)>, col: int, p: int, upto: int)
    requires
        0 <= p < m.len(),
        0 <= upto <= m.len(),
    ensures
        cleared(m, col, p, upto).len() == m.len(),
        cleared(m, col, p, upto)[p] == m[p],
        forall|i: int| upto <= i < m.len() ==> cleared(m, col, p, upto)[i] == m[i],
    decreases upto,
{
    if upto > 0 {
        lemma_cleared(m, col, p, upto - 1);
    }
}

/// Every row holds in `m`, with `pivot` in the place of the row at `out`.
pub open spec fn rows_hold_with(m: Seq<bool>, rows: Seq<BitRow>, out: int, pivot: BitRow) -> bool {
    &&& forall|r: int| 0 <= r < rows.len() && r != out ==> (#[trigger] rows[r]).holds(m)
    &&& 0 <= out < rows.len() ==> pivot.holds(m)
}

/// The rows, with `pivot` in the place of the row at `out`, hold only in
/// models of `given`.
pub open spec fn implies_given(rows: Seq<BitRow>, out: int, pivot: BitRow, given: Seq<BitRow>, n: nat) -> bool {
    forall|m: Seq<bool>| m.len() == n && #[trigger] rows_hold_with(m, rows, out, pivot) ==> rows_hold(m, given)
}

/// What holds of the matrix during the elimination: its height is that of
/// `given`, and each row but the one at `out`, if any, is well formed and
/// implied by `given`.
pub open spec fn reducing(rows: Seq<BitRow>, given: Seq<BitRow>, n: nat, out: int) -> bool {
    &&& rows.len() == given.len()
    &&& forall|r: int| 0 <= r < rows.len() && r != out ==> row_ok(#[trigger] rows[r], n) && implied(rows[r], given, n)
}

/// Exchanges two rows of the matrix.
pub fn swap_rows(matrix: &mut Vec<BitRow>, a: usize, b: usize)
    requires
        a < old(matrix)@.len(),
        b < old(matrix)@.len(),
    ensures
        final(matrix)@ == old(matrix)@.update(a as int, old(matrix)@[b as int]).update(b as int, old(matrix)@[a as int]),
{
    if a != b {
        let mut held = BitRow { chunks: Vec::new(), rhs: false };
        core::mem::swap(&mut matrix[a], &mut held);
        core::mem::swap(&mut matrix[b], &mut held);
        core::mem::swap(&mut matrix[a], &mut held);
    }
    proof {
        assert(matrix@ =~= old(matrix)@.update(a as int, old(matrix)@[b as int]).update(b as int, old(matrix)@[a as int]));
    }
}

/// Gaussian elimination over GF(2). For each column in turn, the first row
/// at or below the pivot position that has the column's bit is moved to the
/// pivot position and added to every other row that has the bit. Every row
/// of the result holds wherever all rows held before.
pub fn gaussian_eliminate(matrix: &mut Vec<BitRow>, num_vars: usize)
    requires
        rows_ok(old(matrix)@, num_vars as nat),
    ensures
        final(matrix)@.len() == old(matrix)@.len(),
        rows_ok(final(matrix)@, num_vars as nat),
        matrix_view(final(matrix)@, num_vars as nat) == reduced(
            matrix_view(old(matrix)@, num_vars as nat),
            0,
            0,
            num_vars as int,
        ),
        forall|m: Seq<bool>|
            m.len() == num_vars && rows_hold(m, old(matrix)@) ==> #[trigger] rows_hold(m, final(matrix)@),
        forall|m: Seq<bool>|
            m.len() == num_vars && #[trigger] rows_hold(m, final(matrix)@) ==> rows_hold(m, old(matrix)@),
{
    let ghost given = matrix@;
    let ghost n = num_vars as nat;
    let ghost goal = reduced(matrix_view(given, n), 0, 0, n as int);
    proof {
        assert forall|r: int| 0 <= r < given.len() implies row_ok(#[trigger] given[r], n) && implied(given[r], given, n) by {}
    }
    let mut pivot_row_idx: usize = 0;
    let mut col: usize = 0;
    while col < num_vars && pivot_row_idx < matrix.len()
        invariant
            given == old(matrix)@,
            n == num_vars,
            0 <= col <= num_vars,
            0 <= pivot_row_idx <= matrix@.len(),
            reducing(matrix@, given, n, -1),
            reduced(matrix_view(matrix@, n), col as int, pivot_row_idx as int, n as int) == goal,
            forall|m: Seq<bool>| m.len() == n && #[trigger] rows_hold(m, matrix@) ==> rows_hold(m, given),
        decreases num_vars - col,
    {
        let ghost mv = matrix_view(matrix@, n);
        let mut pivot_found: Option<usize> = None;
        let mut r: usize = pivot_row_idx;
        while r < matrix.len() && pivot_found.is_none()
            invariant
                n == num_vars,
                col < num_vars,
                mv == matrix_view(matrix@, n),
                pivot_row_idx <= r <= matrix@.len(),
                pivot_found is None ==> first_with(mv, col as int, r as int) == first_with(
                    mv,
                    col as int,
                    pivot_row_idx as int,
                ),
                pivot_found is Some ==> pivot_found->0 < matrix@.len() && pivot_row_idx <= pivot_found->0
                    && pivot_found->0 == first_with(mv, col as int, pivot_row_idx as int),
            decreases matrix.len() - r + (if pivot_found is None {
                1int
            } else {
                0int
            }),
        {
            proof {
                assert(mv[r as int].0[col as int] == matrix@[r as int].bit(col as int));
            }
            if matrix[r].get_bit(col) {
                pivot_found = Some(r);
            } else {
                r = r + 1;
            }
        }
        match pivot_found {
            Some(r) => {
                let ghost before = matrix@;
                swap_rows(matrix, pivot_row_idx, r);
                let ghost sv = exchanged(mv, pivot_row_idx as int, r as int);
                proof {
                    assert forall|q: int| 0 <= q < matrix@.len() implies row_ok(#[trigger] matrix@[q], n) && implied(
                        matrix@[q],
                        given,
                        n,
                    ) by {
                        if q == pivot_row_idx {
                            assert(matrix@[q] == before[r as int]);
                        } else if q == r {
                            assert(matrix@[q] == before[pivot_row_idx as int]);
                        } else {
                            assert(matrix@[q] == before[q]);
                        }
                    }
                    assert(matrix_view(matrix@, n) =~= sv);
                    assert forall|m: Seq<bool>| m.len() == n && #[trigger] rows_hold(m, matrix@) implies rows_hold(
                        m,
                        given,
                    ) by {
                        assert forall|q: int| 0 <= q < before.len() implies (#[trigger] before[q]).holds(m) by {
                            let q2 = if q == pivot_row_idx { r as int } else if q == r { pivot_row_idx as int } else { q };
                            assert(matrix@[q2] == before[q]);
                            assert(matrix@[q2].holds(m));
                        }
                        assert(rows_hold(m, before));
                    }
                }
                let ghost swapped = matrix@;
                let mut pivot = BitRow { chunks: Vec::new(), rhs: false };
                core::mem::swap(&mut matrix[pivot_row_idx], &mut pivot);
                proof {
                    assert(matrix_view(matrix@, n).update(pivot_row_idx as int, row_view(pivot, n)) =~= sv);
                    assert forall|m: Seq<bool>|
                        m.len() == n && #[trigger] rows_hold_with(m, matrix@, pivot_row_idx as int, pivot) implies rows_hold(
                        m,
                        given,
                    ) by {
                        assert forall|q: int| 0 <= q < swapped.len() implies (#[trigger] swapped[q]).holds(m) by {
                            if q != pivot_row_idx {
                                assert(matrix@[q] == swapped[q]);
                                assert(matrix@[q].holds(m));
                            }
                        }
                        assert(rows_hold(m, swapped));
                    }
                }
                let mut i: usize = 0;
                while i < matrix.len()
                    invariant
                        n == num_vars,
                        col < num_vars,
                        0 <= i <= matrix@.len(),
                        pivot_row_idx < matrix@.len(),
                        sv.len() == matrix@.len(),
                        reducing(matrix@, given, n, pivot_row_idx as int),
                        row_ok(pivot, n),
                        implied(pivot, given, n),
                        implies_given(matrix@, pivot_row_idx as int, pivot, given, n),
                        matrix_view(matrix@, n).update(pivot_row_idx as int, row_view(pivot, n)) == cleared(
                            sv,
                            col as int,
                            pivot_row_idx as int,
                            i as int,
                        ),
                    decreases matrix.len() - i,
                {
                    let ghost logical = matrix_view(matrix@, n).update(pivot_row_idx as int, row_view(pivot, n));
                    proof {
                        lemma_cleared(sv, col as int, pivot_row_idx as int, i as int);
                        if i != pivot_row_idx {
                            assert(logical[i as int].0[col as int] == matrix@[i as int].bit(col as int));
                        }
                    }
                    if i != pivot_row_idx && matrix[i].get_bit(col) {
                        let ghost prev = matrix@;
                        let ghost row = matrix@[i as int];
                        matrix[i].xor_with(&pivot);
                        proof {
                            let now = matrix@[i as int];
                            assert(row_ok(row, n));
                            assert forall|k: int| #[trigger] now.bit(k) implies k < n by {
                                if row.bit(k) {
                                } else {
                                    assert(pivot.bit(k));
                                }
                            }
                            assert forall|j: int| 0 <= j < n implies #[trigger] now.bit(j) == (row.bit(j) != pivot.bit(j)) by {
                                assert(j / 64 < (n + 63) / 64);
                            }
                            assert forall|m: Seq<bool>| m.len() == n && rows_hold(m, given) implies #[trigger] now.holds(m) by {
                                assert(row.holds(m));
                                assert(pivot.holds(m));
                                lemma_xor_sum(&row, &pivot, &now, m, n as int);
                            }
                            assert forall|q: int| 0 <= q < matrix@.len() && q != pivot_row_idx implies row_ok(
                                #[trigger] matrix@[q],
                                n,
                            ) && implied(matrix@[q], given, n) by {
                                if q != i {
                                    assert(matrix@[q] == prev[q]);
                                }
                            }
                            assert forall|m: Seq<bool>|
                                m.len() == n && #[trigger] rows_hold_with(m, matrix@, pivot_row_idx as int, pivot) implies rows_hold(
                                m,
                                given,
                            ) by {
                                assert(now.holds(m));
                                assert(pivot.holds(m));
                                assert forall|j: int| 0 <= j < n implies #[trigger] row.bit(j) == (now.bit(j)
                                    != pivot.bit(j)) by {
                                    assert(now.bit(j) == (row.bit(j) != pivot.bit(j)));
                                }
                                lemma_xor_sum(&now, &pivot, &row, m, n as int);
                                assert(row.holds(m));
                                assert forall|q: int| 0 <= q < prev.len() && q != pivot_row_idx implies (
                                #[trigger] prev[q]).holds(m) by {
                                    if q != i {
                                        assert(matrix@[q] == prev[q]);
                                        assert(matrix@[q].holds(m));
                                    }
                                }
                                assert(rows_hold_with(m, prev, pivot_row_idx as int, pivot));
                            }
                            assert(row_view(now, n) =~= add_rows(logical[i as int], logical[pivot_row_idx as int])) by {
                                assert(row_view(now, n).0 =~= add_rows(
                                    logical[i as int],
                                    logical[pivot_row_idx as int],
                                ).0);
                            }
                            assert(matrix_view(matrix@, n).update(pivot_row_idx as int, row_view(pivot, n)) =~= logical.update(
                                i as int,
                                add_rows(logical[i as int], logical[pivot_row_idx as int]),
                            ));
                        }
                    }
                    i = i + 1;
                }
                let ghost prev = matrix@;
                core::mem::swap(&mut matrix[pivot_row_idx], &mut pivot);
                proof {
                    assert forall|q: int| 0 <= q < matrix@.len() implies row_ok(#[trigger] matrix@[q], n) && implied(
                        matrix@[q],
                        given,
                        n,
                    ) by {
                        if q != pivot_row_idx {
                            assert(matrix@[q] == prev[q]);
                        }
                    }
                    assert(matrix_view(matrix@, n) =~= cleared(sv, col as int, pivot_row_idx as int, sv.len() as int));
                    assert forall|m: Seq<bool>| m.len() == n && #[trigger] rows_hold(m, matrix@) implies rows_hold(
                        m,
                        given,
                    ) by {
                        assert forall|q: int| 0 <= q < prev.len() && q != pivot_row_idx implies (#[trigger] prev[q]).holds(
                            m,
                        ) by {
                            assert(matrix@[q] == prev[q]);
                            assert(matrix@[q].holds(m));
                        }
                        assert(matrix@[pivot_row_idx as int].holds(m));
                        assert(rows_hold_with(m, prev, pivot_row_idx as int, matrix@[pivot_row_idx as int]));
                    }
                }
                pivot_row_idx = pivot_row_idx + 1;
            },
            None => {},
        }
        col = col + 1;
    }
    proof {
        assert forall|q: int| 0 <= q < matrix@.len() implies row_ok(#[trigger] matrix@[q], n) by {}
        assert forall|m: Seq<bool>| m.len() == num_vars && rows_hold(m, given) implies #[trigger] rows_hold(m, matrix@) by {
            assert forall|q: int| 0 <= q < matrix@.len() implies (#[trigger] matrix@[q]).holds(m) by {
                assert(implied(matrix@[q], given, n));
            }
        }
    }
}

/// The numbers increase strictly.
pub open spec fn increasing(vars: Seq<usize>) -> bool {
    forall|i: int, j: int| 0 <= i < j < vars.len() ==> vars[i] < vars[j]
}

/// `vars` lists, in increasing order, the variables below `k` whose bit is set.
pub open spec fn lists_bits(vars: Seq<usize>, row: BitRow, k: int) -> bool {
    &&& increasing(vars)
    &&& forall|e: int| 0 <= e < vars.len() ==> row.bit(#[trigger] vars[e] as int) && vars[e] < k
    &&& forall|b: int| 0 <= b < k && row.bit(b) ==> #[trigger] vars.contains(b as usize)
}

/// The sum of a row is the sum over the list of its variables.
pub proof fn lemma_listed_sum(vars: Seq<usize>, row: BitRow, k: int, m: Seq<bool>)
    requires
        0 <= k <= usize::MAX,
        lists_bits(vars, row, k),
    ensures
        row.sum(m, k) == parity(m, vars),
    decreases k,
{
    if k == 0 {
        if vars.len() > 0 {
            assert(row.bit(vars[0] as int) && vars[0] < k);
        }
    } else {
        if row.bit(k - 1) {
            assert(vars.contains((k - 1) as usize));
            let e = choose|e: int| 0 <= e < vars.len() && vars[e] == (k - 1) as usize;
            assert(e == vars.len() - 1) by {
                if e < vars.len() - 1 {
                    assert(vars[e] < vars[vars.len() - 1]);
                    assert(row.bit(vars[vars.len() - 1] as int) && vars[vars.len() - 1] < k);
                }
            }
            let rest = vars.drop_last();
            assert(lists_bits(rest, row, k - 1)) by {
                assert forall|e2: int| 0 <= e2 < rest.len() implies row.bit(#[trigger] rest[e2] as int) && rest[e2] < k - 1 by {
                    assert(rest[e2] == vars[e2]);
                    assert(vars[e2] < vars[vars.len() - 1]);
                    assert(row.bit(vars[e2] as int) && vars[e2] < k);
                }
                assert forall|b: int| 0 <= b < k - 1 && row.bit(b) implies #[trigger] rest.contains(b as usize) by {
                    assert(vars.contains(b as usize));
                    let e3 = choose|e3: int| 0 <= e3 < vars.len() && vars[e3] == b as usize;
                    assert(e3 != e);
                    assert(rest[e3] == b as usize);
                }
                assert forall|i: int, j: int| 0 <= i < j < rest.len() implies rest[i] < rest[j] by {
                    assert(vars[i] < vars[j]);
                }
            }
            lemma_listed_sum(rest, row, k - 1, m);
        } else {
            assert(lists_bits(vars, row, k - 1)) by {
                assert forall|e2: int| 0 <= e2 < vars.len() implies row.bit(#[trigger] vars[e2] as int) && vars[e2] < k - 1 by {
                    assert(row.bit(vars[e2] as int) && vars[e2] < k);
                }
                assert forall|b: int| 0 <= b < k - 1 && row.bit(b) implies #[trigger] vars.contains(b as usize) by {}
            }
            lemma_listed_sum(vars, row, k - 1, m);
        }
    }
}

/// The variables of the row, in increasing order.
pub fn row_vars(row: &BitRow) -> (vars: Vec<usize>)
    requires
        row.chunks@.len() <= 0x3ff_ffff,
    ensures
        lists_bits(vars@, *row, 64 * (row.chunks@.len() as int)),
{
    let mut vars: Vec<usize> = Vec::new();
    let mut i: usize = 0;
    while i < row.chunks.len()
        invariant
            0 <= i <= row.chunks@.len(),
            row.chunks@.len() <= 0x3ff_ffff,
            lists_bits(vars@, *row, 64 * i),
        decreases row.chunks.len() - i,
    {
        let chunk = row.chunks[i];
        if chunk != 0 {
            let mut bit: usize = 0;
            while bit < 64
                invariant
                    0 <= i < row.chunks@.len(),
                    row.chunks@.len() <= 0x3ff_ffff,
                    chunk == row.chunks@[i as int],
                    0 <= bit <= 64,
                    lists_bits(vars@, *row, 64 * i + bit),
                decreases 64 - bit,
            {
                let ghost before = vars@;
                let ghost pos = 64 * i + bit;
                proof {
                    lemma_test_chunk(chunk, bit as u64);
                    assert(pos / 64 == i && pos % 64 == bit);
                }
                if (chunk & (1u64 << (bit as u64))) != 0 {
                    vars.push(i * 64 + bit);
                    proof {
                        assert(row.bit(pos));
                        assert forall|a: int, b: int| 0 <= a < b < vars@.len() implies vars@[a] < vars@[b] by {
                            assert(row.bit(before[a] as int) && before[a] < pos);
                            if b < before.len() {
                                assert(before[a] < before[b]);
                            }
                        }
                        assert forall|e: int| 0 <= e < vars@.len() implies row.bit(#[trigger] vars@[e] as int) && vars@[e]
                            < pos + 1 by {
                            if e < before.len() {
                                assert(row.bit(before[e] as int) && before[e] < pos);
                            }
                        }
                        assert forall|b: int| 0 <= b < pos + 1 && row.bit(b) implies #[trigger] vars@.contains(
                            b as usize,
                        ) by {
                            if b < pos {
                                assert(before.contains(b as usize));
                                let e = choose|e: int| 0 <= e < before.len() && before[e] == b as usize;
                                assert(vars@[e] == b as usize);
                            } else {
                                assert(vars@[before.len() as int] == b as usize);
                            }
                        }
                    }
                } else {
                    proof {
                        assert(!row.bit(pos));
                        assert forall|e: int| 0 <= e < vars@.len() implies row.bit(#[trigger] vars@[e] as int) && vars@[e]
                            < pos + 1 by {
                            assert(row.bit(before[e] as int) && before[e] < pos);
                        }
                    }
                }
                bit = bit + 1;
            }
        } else {
            proof {
                assert forall|b: int| 0 <= b < 64 * (i + 1) && row.bit(b) implies #[trigger] vars@.contains(b as usize) by {
                    if b >= 64 * i {
                        assert(b / 64 == i);
                        crate::preprocessing::bitrow::lemma_zero_chunk((b % 64) as u64);
                    }
                }
                assert forall|e: int| 0 <= e < vars@.len() implies row.bit(#[trigger] vars@[e] as int) && vars@[e] < 64 * (i
                    + 1) by {
                    assert(row.bit(vars@[e] as int) && vars@[e] < 64 * i);
                }
            }
        }
        i = i + 1;
    }
    vars
}

/// The sum of a row that names variables below `n` only is its sum over all
/// its bits.
pub proof fn lemma_sum_beyond(row: BitRow, m: Seq<bool>, n: int, k: int)
    requires
        0 <= n <= k,
        forall|b: int| #[trigger] row.bit(b) ==> b < n,
    ensures
        row.sum(m, k) == row.sum(m, n),
    decreases k,
{
    if k > n {
        lemma_sum_beyond(row, m, n, k - 1);
        assert(!row.bit(k - 1));
    }
}

/// The variables below `k` whose bit is set, in increasing order.
pub open spec fn set_bits(bits: Seq<bool>, k: int) -> Seq<usize>
    decreases k,
{
    if k <= 0 {
        Seq::empty()
    } else if bits[k - 1] {
        set_bits(bits, k - 1).push((k - 1) as usize)
    } else {
        set_bits(bits, k - 1)
    }
}

/// What `row_vars` returns for a row over `n` variables is the list of its
/// set bits.
pub proof fn lemma_listed_bits(vars: Seq<usize>, row: BitRow, k: int, n: nat)
    requires
        0 <= k <= n <= usize::MAX,
        lists_bits(vars, row, k),
    ensures
        vars == set_bits(row_view(row, n).0, k),
    decreases k,
{
    let bits = row_view(row, n).0;
    if k == 0 {
        if vars.len() > 0 {
            assert(row.bit(vars[0] as int) && vars[0] < k);
        }
        assert(vars =~= set_bits(bits, k));
    } else {
        if row.bit(k - 1) {
            assert(vars.contains((k - 1) as usize));
            let e = choose|e: int| 0 <= e < vars.len() && vars[e] == (k - 1) as usize;
            assert(e == vars.len() - 1) by {
                if e < vars.len() - 1 {
                    assert(vars[e] < vars[vars.len() - 1]);
                    assert(row.bit(vars[vars.len() - 1] as int) && vars[vars.len() - 1] < k);
                }
            }
            let rest = vars.drop_last();
            assert(lists_bits(rest, row, k - 1)) by {
                assert forall|e2: int| 0 <= e2 < rest.len() implies row.bit(#[trigger] rest[e2] as int) && rest[e2] < k - 1 by {
                    assert(rest[e2] == vars[e2]);
                    assert(vars[e2] < vars[vars.len() - 1]);
                    assert(row.bit(vars[e2] as int) && vars[e2] < k);
                }
                assert forall|b: int| 0 <= b < k - 1 && row.bit(b) implies #[trigger] rest.contains(b as usize) by {
                    assert(vars.contains(b as usize));
                    let e3 = choose|e3: int| 0 <= e3 < vars.len() && vars[e3] == b as usize;
                    assert(e3 != e);
                    assert(rest[e3] == b as usize);
                }
                assert forall|i: int, j: int| 0 <= i < j < rest.len() implies rest[i] < rest[j] by {
                    assert(vars[i] < vars[j]);
                }
            }
            lemma_listed_bits(rest, row, k - 1, n);
            assert(vars =~= rest.push((k - 1) as usize));
        } else {
            assert(lists_bits(vars, row, k - 1)) by {
                assert forall|e2: int| 0 <= e2 < vars.len() implies row.bit(#[trigger] vars[e2] as int) && vars[e2] < k - 1 by {
                    assert(row.bit(vars[e2] as int) && vars[e2] < k);
                }
                assert forall|b: int| 0 <= b < k - 1 && row.bit(b) implies #[trigger] vars.contains(b as usize) by {}
            }
            lemma_listed_bits(vars, row, k - 1, n);
        }
    }
}

/// A list of the bits of a row that names variables below `n` only lists
/// the bits below `n`.
pub proof fn lemma_lists_below(vars: Seq<usize>, row: BitRow, k: int, n: int)
    requires
        0 <= n <= k,
        lists_bits(vars, row, k),
        forall|b: int| #[trigger] row.bit(b) ==> b < n,
    ensures
        lists_bits(vars, row, n),
{
    assert forall|e: int| 0 <= e < vars.len() implies row.bit(#[trigger] vars[e] as int) && vars[e] < n by {
        assert(row.bit(vars[e] as int) && vars[e] < k);
    }
}

} // verus!
