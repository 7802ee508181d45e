//! Reading a formula from text: one clause per line, as signed numbers
//! separated by blanks, commas or brackets, with DIMACS comments and headers
//! passed over.

use vstd::prelude::*;
use crate::lit::{clause_holds, formula_holds, lit_value, satisfiable, Lit, VarValue, MAX_VARS};
use crate::normalize::normal_form;
use crate::solver::Solver;
use crate::strategy::RandomStrategy;

verus! {

/// White space as `char::is_whitespace` has it.
pub open spec fn is_space(c: char) -> bool {
    let x = c as u32;
    (9 <= x <= 13) || x == 32 || x == 0x85 || x == 0xA0 || x == 0x1680 || (0x2000 <= x <= 0x200A) || x == 0x2028 || x
        == 0x2029 || x == 0x202F || x == 0x205F || x == 0x3000
}

/// What separates numbers: white space, brackets and commas.
pub open spec fn is_break(c: char) -> bool {
    is_space(c) || c == '[' || c == ']' || c == ','
}

/// Where the line that holds position `i` ends: at the next line feed or at
/// the end of the text.
pub open spec fn line_end(s: Seq<char>, i: int) -> int
    decreases s.len() - i,
{
    if i >= s.len() || s[i] == '\n' {
        i
    } else {
        line_end(s, i + 1)
    }
}

/// Where the number that begins at `i` ends, within the line that ends at `j`.
pub open spec fn token_end(s: Seq<char>, i: int, j: int) -> int
    decreases j - i,
{
    if i >= j || is_break(s[i]) {
        i
    } else {
        token_end(s, i + 1, j)
    }
}

/// The first position from `i` on, before `j`, that holds no white space.
pub open spec fn first_nonspace(s: Seq<char>, i: int, j: int) -> int
    decreases j - i,
{
    if i >= j || !is_space(s[i]) {
        i
    } else {
        first_nonspace(s, i + 1, j)
    }
}

/// The value of a run of decimal digits.
pub open spec fn digits_value(t: Seq<char>) -> int
    decreases t.len(),
{
    if t.len() == 0 {
        0
    } else {
        10 * digits_value(t.drop_last()) + (t.last() as int - 48)
    }
}

pub open spec fn all_digits(t: Seq<char>) -> bool {
    forall|k: int| 0 <= k < t.len() ==> 48 <= (#[trigger] t[k]) as int <= 57
}

/// The number that a token spells: an optional sign and one or more digits,
/// within the range of `i32`.
pub open spec fn token_value(t: Seq<char>) -> Option<int> {
    let signed = t.len() > 0 && (t[0] == '+' || t[0] == '-');
    let body = if signed {
        t.skip(1)
    } else {
        t
    };
    let v = if t.len() > 0 && t[0] == '-' {
        -digits_value(body)
    } else {
        digits_value(body)
    };
    if body.len() == 0 || !all_digits(body) || v < -0x8000_0000 || v >= 0x8000_0000 {
        None
    } else {
        Some(v)
    }
}

/// The literal that the number `v` stands for: variable `|v| - 1`, negated
/// iff `v` is negative.
pub open spec fn lit_of(v: int) -> Lit {
    Lit::make(
        if v < 0 {
            -v - 1
        } else {
            v - 1
        },
        v < 0,
    )
}

/// The literals that a token adds to its clause: that of its number, unless
/// it spells none, or zero, or the least `i32`.
pub open spec fn token_lits(t: Seq<char>) -> Seq<Lit> {
    match token_value(t) {
        Some(v) => if v == 0 || v == -0x8000_0000 {
            Seq::empty()
        } else {
            seq![lit_of(v)]
        },
        None => Seq::empty(),
    }
}

/// The literals of the numbers between `i` and the end `j` of the line.
pub open spec fn line_lits(s: Seq<char>, i: int, j: int) -> Seq<Lit>
    decreases j - i,
{
    if i >= j {
        Seq::empty()
    } else if is_break(s[i]) {
        line_lits(s, i + 1, j)
    } else {
        let e = token_end(s, i, j);
        if e <= i || e > j {
            Seq::empty()
        } else {
            token_lits(s.subrange(i, e)) + line_lits(s, e, j)
        }
    }
}

/// The line from `i` to `j` is passed over: it is blank, or its first
/// character after white space is `c`, `%` or `0`.
pub open spec fn skipped(s: Seq<char>, i: int, j: int) -> bool {
    let k = first_nonspace(s, i, j);
    k >= j || s[k] == 'c' || s[k] == '%' || s[k] == '0'
}

/// The clauses of the lines from position `i` on: one for each line that is
/// not passed over and holds a literal.
pub open spec fn clauses_from(s: Seq<char>, i: int) -> Seq<Seq<Lit>>
    decreases s.len() - i,
{
    if i >= s.len() || i < 0 {
        Seq::empty()
    } else {
        let j = line_end(s, i);
        if j < i {
            Seq::empty()
        } else {
            let rest = if j >= s.len() {
                Seq::empty()
            } else {
                clauses_from(s, j + 1)
            };
            if !skipped(s, i, j) && line_lits(s, i, j).len() > 0 {
                seq![line_lits(s, i, j)] + rest
            } else {
                rest
            }
        }
    }
}

/// The line that begins at `i` begins with `p cnf`.
pub open spec fn is_header(s: Seq<char>, i: int) -> bool {
    i + 5 <= s.len() && s[i] == 'p' && s[i + 1] == ' ' && s[i + 2] == 'c' && s[i + 3] == 'n' && s[i + 4] == 'f'
}

/// Where the clauses begin, looking from the line at `i` on: after the
/// first line that begins with `p cnf`; `None` if there is no such line.
pub open spec fn after_header(s: Seq<char>, i: int) -> Option<int>
    decreases s.len() - i,
{
    if i >= s.len() || i < 0 {
        None
    } else if is_header(s, i) {
        Some(line_end(s, i) + 1)
    } else if line_end(s, i) < i || line_end(s, i) >= s.len() {
        None
    } else {
        after_header(s, line_end(s, i) + 1)
    }
}

/// The clauses that the text spells.
pub open spec fn parsed_clauses(s: Seq<char>) -> Seq<Seq<Lit>> {
    match after_header(s, 0) {
        Some(b) => clauses_from(s, b),
        None => clauses_from(s, 0),
    }
}

/// `n` is one more than the highest variable index in the clauses, and 1 if
/// there is no literal.
pub open spec fn counts_vars(cs: Seq<Seq<Lit>>, n: int) -> bool {
    &&& n >= 1
    &&& forall|c: int, k: int| 0 <= c < cs.len() && 0 <= k < cs[c].len() ==> (#[trigger] cs[c][k]).spec_var() < n
    &&& n == 1 || exists|c: int, k: int| 0 <= c < cs.len() && 0 <= k < cs[c].len() && (#[trigger] cs[c][k]).spec_var() == n - 1
}

/// The literals of each clause.
pub open spec fn views(cs: Seq<Vec<Lit>>) -> Seq<Seq<Lit>> {
    Seq::new(cs.len(), |c: int| cs[c]@)
}

pub proof fn lemma_token_end(s: Seq<char>, i: int, j: int)
    requires
        0 <= i <= j <= s.len(),
    ensures
        i <= token_end(s, i, j) <= j,
        token_end(s, i, j) < j ==> is_break(s[token_end(s, i, j)]),
        forall|k: int| i <= k < token_end(s, i, j) ==> !is_break(s[k]),
    decreases j - i,
{
    if i < j && !is_break(s[i]) {
        lemma_token_end(s, i + 1, j);
    }
}

/// Whether `c` is white space.
pub fn space(c: char) -> (r: bool)
    ensures
        r == is_space(c),
{
    let x = c as u32;
    (9 <= x && x <= 13) || x == 32 || x == 0x85 || x == 0xA0 || x == 0x1680 || (0x2000 <= x && x <= 0x200A) || x == 0x2028
        || x == 0x2029 || x == 0x202F || x == 0x205F || x == 0x3000
}

/// Whether `c` separates numbers.
pub fn breaks(c: char) -> (r: bool)
    ensures
        r == is_break(c),
{
    space(c) || c == '[' || c == ']' || c == ','
}

/// The characters of the text.
pub fn to_chars(s: &str) -> (v: Vec<char>)
    ensures
        v@ == s@,
{
    broadcast use vstd::string::axiom_spec_iter;

    let mut v: Vec<char> = Vec::new();
    for c in it: s.chars()
        invariant
            it.seq() == s@,
            v@ == it.seq().take(it.index() as int),
    {
        v.push(c);
        proof {
            assert(v@ =~= it.seq().take(it.index() + 1));
        }
    }
    proof {
        assert(v@ =~= s@);
    }
    v
}

/// The literal that the number `val` stands for, and the index of its
/// variable: `|val| - 1`.
pub fn parse_lit(val: i32) -> (r: (Lit, usize))
    requires
        val != 0,
        val != i32::MIN,
    ensures
        r.0 == lit_of(val as int),
        r.1 == (if val < 0 {
            -val - 1
        } else {
            val - 1
        }),
        r.0.spec_var() == r.1,
        r.0.spec_is_neg() == (val < 0),
        r.1 < MAX_VARS - 1,
{
    let magnitude: i32 = if val < 0 {
        -val
    } else {
        val
    };
    let var_idx = (magnitude as usize) - 1;
    let is_neg = val < 0;
    (Lit::new(var_idx, is_neg), var_idx)
}

/// A run of digits is worth at least what it was worth one digit shorter.
pub proof fn lemma_digits_grow(t: Seq<char>)
    requires
        all_digits(t),
    ensures
        digits_value(t) >= 0,
        t.len() > 0 ==> digits_value(t) >= digits_value(t.drop_last()),
    decreases t.len(),
{
    if t.len() > 0 {
        let r = t.drop_last();
        assert forall|k: int| 0 <= k < r.len() implies 48 <= (#[trigger] r[k]) as int <= 57 by {
            assert(r[k] == t[k]);
        }
        lemma_digits_grow(r);
        assert(48 <= t[t.len() - 1] as int <= 57);
    }
}

/// The value of a decimal digit.
pub fn digit_of(c: char) -> (r: Option<u64>)
    ensures
        match r {
            Some(d) => 48 <= c as int <= 57 && d == c as int - 48,
            None => !(48 <= c as int <= 57),
        },
{
    let x = c as u32;
    if 48 <= x && x <= 57 {
        Some((x - 48) as u64)
    } else {
        None
    }
}

/// The number that the characters from `i` to `e` spell, if they spell one.
pub fn parse_token(s: &Vec<char>, i: usize, e: usize) -> (r: Option<i32>)
    requires
        i <= e <= s@.len(),
    ensures
        match r {
            Some(v) => token_value(s@.subrange(i as int, e as int)) == Some(v as int),
            None => token_value(s@.subrange(i as int, e as int)) is None,
        },
{
    let ghost t = s@.subrange(i as int, e as int);
    if i == e {
        return None;
    }
    let neg = s[i] == '-';
    let signed = s[i] == '+' || s[i] == '-';
    let start = if signed {
        i + 1
    } else {
        i
    };
    let ghost body = if signed {
        t.skip(1)
    } else {
        t
    };
    proof {
        assert(t[0] == s@[i as int]);
        assert(body =~= s@.subrange(start as int, e as int));
    }
    if start == e {
        return None;
    }
    let mut acc: u64 = 0;
    let mut big = false;
    let mut k: usize = start;
    while k < e
        invariant
            i <= start <= k <= e <= s@.len(),
            t == s@.subrange(i as int, e as int),
            body == s@.subrange(start as int, e as int),
            body == (if t.len() > 0 && (t[0] == '+' || t[0] == '-') {
                t.skip(1)
            } else {
                t
            }),
            all_digits(body.take(k - start)),
            !big ==> acc == digits_value(body.take(k - start)) && acc <= 0x8000_0000,
            big ==> digits_value(body.take(k - start)) > 0x8000_0000,
        decreases e - k,
    {
        let ghost before = body.take(k - start);
        let ghost now = body.take(k - start + 1);
        proof {
            assert(now.drop_last() =~= before);
            assert(now.last() == s@[k as int]);
            assert(body[k - start] == s@[k as int]);
        }
        let digit = match digit_of(s[k]) {
            Some(d) => d,
            None => {
                proof {
                    assert(!all_digits(body));
                }
                return None;
            },
        };
        proof {
            assert forall|q: int| 0 <= q < now.len() implies 48 <= (#[trigger] now[q]) as int <= 57 by {
                if q < before.len() {
                    assert(now[q] == before[q]);
                }
            }
            lemma_digits_grow(now);
        }
        if !big {
            acc = acc * 10 + digit;
            if acc > 0x8000_0000 {
                big = true;
            }
        }
        k = k + 1;
    }
    proof {
        assert(body.take(e - start) =~= body);
    }
    if big {
        return None;
    }
    if neg {
        if acc > 0x8000_0000 {
            None
        } else {
            Some((-(acc as i64)) as i32)
        }
    } else {
        if acc >= 0x8000_0000 {
            None
        } else {
            Some(acc as i32)
        }
    }
}

/// The literals of the numbers of the line from `i` to `j`, and the highest
/// variable index among them and `max_before`.
pub fn parse_line(s: &Vec<char>, i: usize, j: usize, max_before: usize) -> (r: (Vec<Lit>, usize))
    requires
        i <= j <= s@.len(),
        max_before < MAX_VARS - 1,
    ensures
        r.0@ == line_lits(s@, i as int, j as int),
        max_before <= r.1 < MAX_VARS - 1,
        forall|k: int| 0 <= k < r.0@.len() ==> (#[trigger] r.0@[k]).spec_var() <= r.1,
        r.1 == max_before || exists|k: int| 0 <= k < r.0@.len() && (#[trigger] r.0@[k]).spec_var() == r.1,
{
    let mut current_clause: Vec<Lit> = Vec::new();
    let mut max_var_idx = max_before;
    let mut p: usize = i;
    while p < j
        invariant
            i <= p <= j <= s@.len(),
            current_clause@ + line_lits(s@, p as int, j as int) == line_lits(s@, i as int, j as int),
            max_before <= max_var_idx < MAX_VARS - 1,
            forall|k: int| 0 <= k < current_clause@.len() ==> (#[trigger] current_clause@[k]).spec_var() <= max_var_idx,
            max_var_idx == max_before || exists|k: int|
                0 <= k < current_clause@.len() && (#[trigger] current_clause@[k]).spec_var() == max_var_idx,
        decreases j - p,
    {
        if breaks(s[p]) {
            p = p + 1;
        } else {
            let mut e: usize = p;
            while e < j && !breaks(s[e])
                invariant
                    p <= e <= j <= s@.len(),
                    token_end(s@, e as int, j as int) == token_end(s@, p as int, j as int),
                decreases j - e,
            {
                e = e + 1;
            }
            proof {
                lemma_token_end(s@, p as int, j as int);
                assert(e == token_end(s@, p as int, j as int));
            }
            let ghost before = current_clause@;
            let ghost t = s@.subrange(p as int, e as int);
            match parse_token(s, p, e) {
                Some(val) => {
                    if val != 0 && val != i32::MIN {
                        let (lit, var_idx) = parse_lit(val);
                        current_clause.push(lit);
                        if var_idx > max_var_idx {
                            max_var_idx = var_idx;
                        }
                        proof {
                            assert(token_lits(t) =~= seq![lit]);
                            assert(current_clause@ =~= before + token_lits(t));
                            assert(current_clause@[before.len() as int] == lit);
                            assert forall|k: int| 0 <= k < current_clause@.len() implies (
                            #[trigger] current_clause@[k]).spec_var() <= max_var_idx by {
                                if k < before.len() {
                                    assert(current_clause@[k] == before[k]);
                                }
                            }
                            if max_var_idx != max_before {
                                if var_idx == max_var_idx {
                                    assert(current_clause@[before.len() as int].spec_var() == max_var_idx);
                                } else {
                                    let k = choose|k: int| 0 <= k < before.len() && (#[trigger] before[k]).spec_var() == max_var_idx;
                                    assert(current_clause@[k] == before[k]);
                                }
                            }
                        }
                    } else {
                        proof {
                            assert(token_lits(t) =~= Seq::<Lit>::empty());
                            assert(current_clause@ =~= before + token_lits(t));
                        }
                    }
                },
                None => {
                    proof {
                        assert(token_lits(t) =~= Seq::<Lit>::empty());
                        assert(current_clause@ =~= before + token_lits(t));
                    }
                },
            }
            proof {
                assert(line_lits(s@, p as int, j as int) == token_lits(t) + line_lits(s@, e as int, j as int));
                assert(current_clause@ + line_lits(s@, e as int, j as int) =~= before + (token_lits(t) + line_lits(
                    s@,
                    e as int,
                    j as int,
                )));
            }
            p = e;
        }
    }
    proof {
        assert(current_clause@ =~= current_clause@ + line_lits(s@, p as int, j as int));
    }
    (current_clause, max_var_idx)
}

/// Where the line that begins at `i` ends.
pub fn find_line_end(s: &Vec<char>, i: usize) -> (j: usize)
    requires
        i <= s@.len(),
    ensures
        j == line_end(s@, i as int),
        i <= j <= s@.len(),
{
    let mut j: usize = i;
    while j < s.len() && s[j] != '\n'
        invariant
            i <= j <= s@.len(),
            line_end(s@, j as int) == line_end(s@, i as int),
        decreases s.len() - j,
    {
        j = j + 1;
    }
    j
}

/// Whether the line from `i` to `j` is passed over.
pub fn is_skipped(s: &Vec<char>, i: usize, j: usize) -> (r: bool)
    requires
        i <= j <= s@.len(),
    ensures
        r == skipped(s@, i as int, j as int),
{
    let mut k: usize = i;
    while k < j && space(s[k])
        invariant
            i <= k <= j <= s@.len(),
            first_nonspace(s@, k as int, j as int) == first_nonspace(s@, i as int, j as int),
        decreases j - k,
    {
        k = k + 1;
    }
    k >= j || s[k] == 'c' || s[k] == '%' || s[k] == '0'
}

/// Parses a formula: one clause per line, as signed numbers separated by
/// blanks, commas or brackets, `k` for variable `k - 1` and `-k` for its
/// negation. Everything up to the first line that begins with `p cnf` is
/// passed over, and so are blank lines and lines that begin, after white
/// space, with `c`, `%` or `0`. What is no number is ignored, and so are `0`
/// and numbers beyond `i32`. Returns the clauses that hold a literal, and
/// one more than the highest variable index.
pub fn parse_custom_format(content: &str) -> (r: (Vec<Vec<Lit>>, usize))
    ensures
        views(r.0@) == parsed_clauses(content@),
        counts_vars(views(r.0@), r.1 as int),
        r.1 < MAX_VARS,
{
    let s = to_chars(content);
    let mut clauses: Vec<Vec<Lit>> = Vec::new();
    let mut max_var_idx: usize = 0;

    let mut start: usize = 0;
    let mut found = false;
    let mut i: usize = 0;
    while i < s.len() && !found
        invariant
            s@ == content@,
            0 <= i <= s@.len(),
            !found ==> after_header(s@, i as int) == after_header(s@, 0),
            found ==> after_header(s@, 0) is Some && clauses_from(s@, after_header(s@, 0)->0) == clauses_from(
                s@,
                start as int,
            ) && start <= s@.len(),
        decreases s.len() - i + (if found {
            0int
        } else {
            1int
        }),
    {
        let j = find_line_end(&s, i);
        let next = if j < s.len() {
            j + 1
        } else {
            j
        };
        if s.len() - i >= 5 && s[i] == 'p' && s[i + 1] == ' ' && s[i + 2] == 'c' && s[i + 3] == 'n' && s[i + 4] == 'f' {
            found = true;
            start = next;
        } else {
            i = next;
        }
    }

    let mut i: usize = if found {
        start
    } else {
        0
    };
    let ghost begin = i as int;
    while i < s.len()
        invariant
            s@ == content@,
            0 <= i <= s@.len(),
            parsed_clauses(s@) == clauses_from(s@, begin),
            views(clauses@) + clauses_from(s@, i as int) == clauses_from(s@, begin),
            max_var_idx < MAX_VARS - 1,
            forall|c: int, k: int|
                0 <= c < clauses@.len() && 0 <= k < clauses@[c]@.len() ==> (#[trigger] clauses@[c]@[k]).spec_var()
                    <= max_var_idx,
            max_var_idx == 0 || exists|c: int, k: int|
                0 <= c < clauses@.len() && 0 <= k < clauses@[c]@.len() && (#[trigger] clauses@[c]@[k]).spec_var()
                    == max_var_idx,
        decreases s.len() - i,
    {
        let j = find_line_end(&s, i);
        let ghost before = clauses@;
        let ghost old_max = max_var_idx;
        if !is_skipped(&s, i, j) {
            let (current_clause, new_max) = parse_line(&s, i, j, max_var_idx);
            if current_clause.len() > 0 {
                let ghost lits = current_clause@;
                clauses.push(current_clause);
                max_var_idx = new_max;
                proof {
                    assert(views(clauses@) =~= views(before) + seq![lits]);
                    assert forall|c: int, k: int| 0 <= c < clauses@.len() && 0 <= k < clauses@[c]@.len() implies (
                    #[trigger] clauses@[c]@[k]).spec_var() <= max_var_idx by {
                        if c < before.len() {
                            assert(clauses@[c] == before[c]);
                            assert(before[c]@[k].spec_var() <= old_max);
                        }
                    }
                    if max_var_idx != 0 {
                        if new_max == old_max {
                            let (c, k) = choose|c: int, k: int|
                                0 <= c < before.len() && 0 <= k < before[c]@.len() && (#[trigger] before[c]@[k]).spec_var()
                                    == old_max;
                            assert(clauses@[c] == before[c]);
                            assert(clauses@[c]@[k].spec_var() == max_var_idx);
                        } else {
                            let k = choose|k: int| 0 <= k < lits.len() && (#[trigger] lits[k]).spec_var() == new_max;
                            assert(clauses@[before.len() as int]@[k].spec_var() == max_var_idx);
                        }
                    }
                }
            }
        }
        proof {
            let rest = if j >= s@.len() {
                Seq::<Seq<Lit>>::empty()
            } else {
                clauses_from(s@, j + 1)
            };
            assert(views(clauses@) + rest =~= views(before) + clauses_from(s@, i as int));
        }
        i = if j < s.len() {
            j + 1
        } else {
            j
        };
    }
    proof {
        assert(views(clauses@) =~= views(clauses@) + clauses_from(s@, i as int));
        let cs = views(clauses@);
        assert forall|c: int, k: int| 0 <= c < cs.len() && 0 <= k < cs[c].len() implies (#[trigger] cs[c][k]).spec_var()
            < max_var_idx + 1 by {
            assert(clauses@[c]@[k].spec_var() <= max_var_idx);
        }
        if max_var_idx != 0 {
            let (c, k) = choose|c: int, k: int|
                0 <= c < clauses@.len() && 0 <= k < clauses@[c]@.len() && (#[trigger] clauses@[c]@[k]).spec_var()
                    == max_var_idx;
            assert(0 <= c < cs.len() && 0 <= k < cs[c].len() && cs[c][k].spec_var() == max_var_idx + 1 - 1);
        }
    }
    (clauses, max_var_idx + 1)
}

/// Clause `c` of the formula has one literal, up to repetition.
pub open spec fn is_unit(f: Seq<Seq<Lit>>, c: int) -> bool {
    0 <= c < f.len() && normal_form(f[c]).len() == 1
}

/// Among the first `k` clauses are two with one literal each, the one the
/// negation of the other.
pub open spec fn clashing_units(f: Seq<Seq<Lit>>, k: int) -> bool {
    exists|a: int, b: int|
        0 <= a < k && 0 <= b < k && #[trigger] is_unit(f, a) && #[trigger] is_unit(f, b) && normal_form(f[a])[0]
            == normal_form(f[b])[0].spec_not()
}

/// Parses the text and decides the formula it spells, branching by the
/// seeded pseudo-random heuristic. The result tells whether the formula is
/// satisfiable; so two clauses of one literal each, the one the negation of
/// the other, give `false`.
pub fn run_solver_on_content(content: &str) -> (r: bool)
    ensures
        forall|n: nat|
            counts_vars(parsed_clauses(content@), n as int) ==> (r <==> satisfiable(parsed_clauses(content@), n)),
        clashing_units(parsed_clauses(content@), parsed_clauses(content@).len() as int) ==> !r,
{
    let (clauses, num_vars) = parse_custom_format(content);
    let ghost f = parsed_clauses(content@);
    let mut solver = Solver::new(num_vars);
    let mut i: usize = 0;
    let mut clauses = clauses;
    let total = clauses.len();
    let ghost all = clauses@;
    while i < total
        invariant
            0 <= i <= total,
            total == f.len(),
            clauses@.len() == total,
            forall|c: int| i <= c < total ==> (#[trigger] clauses@[c])@ == f[c],
            counts_vars(f, num_vars as int),
            solver.wf(),
            solver.spec_decision_level() == 0,
            solver.spec_num_vars() == num_vars,
            forall|m: Seq<bool>|
                #[trigger] solver.models(m) <==> m.len() == num_vars && forall|c: int|
                    0 <= c < i ==> clause_holds(m, #[trigger] f[c]),
            forall|c: int|
                0 <= c < i && #[trigger] is_unit(f, c) && solver.spec_ok() ==> lit_value(
                    solver.assignment(),
                    normal_form(f[c])[0],
                ) == VarValue::True,
            clashing_units(f, i as int) ==> !solver.spec_ok(),
        decreases total - i,
    {
        let mut clause_lits: Vec<Lit> = Vec::new();
        core::mem::swap(&mut clauses[i], &mut clause_lits);
        let ghost before = solver;
        proof {
            assert(clause_lits@ == f[i as int]);
            assert forall|k: int| 0 <= k < clause_lits@.len() implies (#[trigger] clause_lits@[k]).spec_var() < num_vars by {
                assert(f[i as int][k].spec_var() < num_vars);
            }
        }
        solver.add_clause(clause_lits);
        proof {
            crate::normalize::lemma_normal_form_exists(f[i as int]);
            crate::normalize::lemma_normal_form_same(normal_form(f[i as int]), f[i as int]);
            assert(crate::lit::lits_in_range(f[i as int], num_vars as nat));
            assert forall|c: int| 0 <= c < i + 1 && #[trigger] is_unit(f, c) && solver.spec_ok() implies lit_value(
                solver.assignment(),
                normal_form(f[c])[0],
            ) == VarValue::True by {
                if c < i {
                    crate::normalize::lemma_normal_form_exists(f[c]);
                    crate::normalize::lemma_normal_form_same(normal_form(f[c]), f[c]);
                    assert(crate::lit::lits_in_range(f[c], num_vars as nat));
                    let l = normal_form(f[c])[0];
                    assert(l.spec_var() < num_vars);
                    assert(before.spec_ok());
                    assert(lit_value(before.assignment(), l) == VarValue::True);
                    assert(before.assignment()[l.spec_var()] != VarValue::Unassigned);
                }
            }
            if clashing_units(f, i + 1) && !clashing_units(f, i as int) && before.spec_ok() {
                let (a, b) = choose|a: int, b: int|
                    0 <= a < i + 1 && 0 <= b < i + 1 && #[trigger] is_unit(f, a) && #[trigger] is_unit(f, b)
                        && normal_form(f[a])[0] == normal_form(f[b])[0].spec_not();
                let la = normal_form(f[a])[0];
                let lb = normal_form(f[b])[0];
                crate::lit::lemma_not_involutive(lb);
                crate::lit::lemma_not_involutive(la);
                assert(a == i || b == i);
                assert(a != b);
                let earlier = if a == i { b } else { a };
                let le = normal_form(f[earlier])[0];
                let li = normal_form(f[i as int])[0];
                assert(is_unit(f, earlier));
                assert(lit_value(before.assignment(), le) == VarValue::True);
                assert(li == le.spec_not() || le == li.spec_not());
                assert(li.spec_var() < num_vars);
                assert(lit_value(before.assignment(), li) == VarValue::False);
            }
            assert forall|m: Seq<bool>|
                #[trigger] solver.models(m) <==> m.len() == num_vars && forall|c: int|
                    0 <= c < i + 1 ==> clause_holds(m, #[trigger] f[c]) by {
                assert(solver.models(m) <==> before.models(m) && clause_holds(m, f[i as int]));
            }
        }
        i = i + 1;
    }
    let mut strategy = RandomStrategy::new(num_vars);
    let ghost loaded = solver;
    let r = solver.solve(&mut strategy);
    proof {
        assert(clashing_units(f, f.len() as int) ==> !r);
        assert forall|n: nat| counts_vars(f, n as int) implies (r <==> satisfiable(f, n)) by {
            lemma_counts_unique(f, n as int, num_vars as int);
            if r {
                let model = crate::lit::model_of(solver.assignment());
                assert(loaded.models(model));
                assert(formula_holds(model, f));
            } else {
                if satisfiable(f, n) {
                    let m = choose|m: Seq<bool>| m.len() == n && #[trigger] formula_holds(m, f);
                    assert(loaded.models(m));
                }
            }
        }
    }
    r
}

/// The number of variables of a formula is determined.
pub proof fn lemma_counts_unique(f: Seq<Seq<Lit>>, a: int, b: int)
    requires
        counts_vars(f, a),
        counts_vars(f, b),
    ensures
        a == b,
{
    if a < b {
        let (c, k) = choose|c: int, k: int|
            0 <= c < f.len() && 0 <= k < f[c].len() && (#[trigger] f[c][k]).spec_var() == b - 1;
        assert(f[c][k].spec_var() < a);
    }
    if b < a {
        let (c, k) = choose|c: int, k: int|
            0 <= c < f.len() && 0 <= k < f[c].len() && (#[trigger] f[c][k]).spec_var() == a - 1;
        assert(f[c][k].spec_var() < b);
    }
}

} // verus!
