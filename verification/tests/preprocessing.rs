use satgpt::preprocessing::bitrow::BitRow;
use satgpt::preprocessing::extract::{
    build_row, check_row, check_semantic_xor_logic, clause_effect, collect_neighbors,
    extract_semantic_xors, Effect,
};
use satgpt::preprocessing::gauss::{build_matrix, gaussian_eliminate, row_vars, swap_rows};
use satgpt::preprocessing::subst::{apply_replacements, simplify_clause, xor_to_cnf};
use satgpt::preprocessing::{
    contradiction_result, preprocess, read_rows, rewrite_clause, XorConstraint,
};
use satgpt::{Clause, Lit};
use std::collections::HashMap;

fn lits(ks: &[i32]) -> Vec<Lit> {
    ks.iter().map(|&k| Lit::new((k.abs() - 1) as usize, k < 0)).collect()
}

fn clauses(cs: &[&[i32]]) -> Vec<Clause> {
    cs.iter().map(|c| Clause { lits: lits(c), learned: false }).collect()
}

fn row(size: usize, vars: &[usize], rhs: bool) -> BitRow {
    let mut r = BitRow::new(size, rhs);
    for &v in vars {
        r.set_bit(v);
    }
    r
}

fn lit_sets(cs: &[Clause]) -> Vec<Vec<Lit>> {
    cs.iter().map(|c| c.lits.clone()).collect()
}

const XOR3_ODD: [&[i32]; 4] = [&[1, 2, 3], &[1, -2, -3], &[-1, 2, -3], &[-1, -2, 3]];

#[test]
fn bit_row_new_is_zero() {
    let r = BitRow::new(130, true);
    assert_eq!(r.chunks, vec![0, 0, 0]);
    assert!(r.rhs);
    assert!(r.is_zero_row());
    assert!(!r.get_bit(0));
    assert!(!r.get_bit(129));
    assert!(!r.get_bit(5000));
    assert_eq!(BitRow::new(0, false).chunks.len(), 0);
    assert_eq!(BitRow::new(64, false).chunks.len(), 1);
    assert_eq!(BitRow::new(65, false).chunks.len(), 2);
}

#[test]
fn bit_row_set_and_get() {
    let mut r = BitRow::new(130, false);
    r.set_bit(0);
    r.set_bit(63);
    r.set_bit(64);
    r.set_bit(129);
    assert_eq!(r.chunks, vec![0x8000_0000_0000_0001, 1, 2]);
    assert!(r.get_bit(0) && r.get_bit(63) && r.get_bit(64) && r.get_bit(129));
    assert!(!r.get_bit(1) && !r.get_bit(65) && !r.get_bit(128));
    assert!(!r.is_zero_row());
    r.set_bit(63);
    assert_eq!(r.chunks[0], 0x8000_0000_0000_0001);
    // beyond the width nothing is set
    r.set_bit(192);
    assert_eq!(r.chunks, vec![0x8000_0000_0000_0001, 1, 2]);
    assert!(!r.get_bit(192));
}

#[test]
fn bit_row_xor() {
    let mut a = row(70, &[1, 2, 65], true);
    let b = row(70, &[2, 3, 65, 69], true);
    a.xor_with(&b);
    assert_eq!(row_vars(&a), vec![1, 3, 69]);
    assert!(!a.rhs);
    let mut c = row(70, &[4], false);
    c.xor_with(&c.chunks.clone().into_iter().fold(BitRow::new(70, true), |mut r, _| {
        r.set_bit(4);
        r
    }));
    assert!(c.is_zero_row());
    assert!(c.rhs);
}

#[test]
fn bit_row_xor_of_unequal_widths() {
    let mut narrow = row(64, &[1], false);
    let wide = row(128, &[1, 2, 100], true);
    narrow.xor_with(&wide);
    assert_eq!(narrow.chunks, vec![4]);
    assert!(narrow.rhs);
    let mut wide = row(128, &[1, 100], false);
    let narrow = row(64, &[1, 3], false);
    wide.xor_with(&narrow);
    assert_eq!(row_vars(&wide), vec![3, 100]);
}

#[test]
fn variables_of_a_row() {
    assert_eq!(row_vars(&row(200, &[199, 0, 64, 63, 128], false)), vec![0, 63, 64, 128, 199]);
    assert!(row_vars(&BitRow::new(200, true)).is_empty());
}

#[test]
fn rows_can_be_exchanged() {
    let mut m = vec![row(8, &[0], false), row(8, &[1], true), row(8, &[2], false)];
    swap_rows(&mut m, 0, 2);
    assert_eq!(row_vars(&m[0]), vec![2]);
    assert_eq!(row_vars(&m[1]), vec![1]);
    assert_eq!(row_vars(&m[2]), vec![0]);
    swap_rows(&mut m, 1, 1);
    assert_eq!(row_vars(&m[1]), vec![1]);
    assert!(m[1].rhs);
}

#[test]
fn matrix_of_constraints() {
    let xors = vec![
        XorConstraint { vars: vec![2, 0, 1], rhs: true },
        XorConstraint { vars: vec![0, 1, 3], rhs: false },
    ];
    let m = build_matrix(&xors, 4);
    assert_eq!(m.len(), 2);
    assert_eq!(m[0].chunks, vec![0b0111]);
    assert!(m[0].rhs);
    assert_eq!(m[1].chunks, vec![0b1011]);
    assert!(!m[1].rhs);
}

#[test]
fn elimination_reduces_fully() {
    // x0 ^ x1 ^ x2 = 1, x0 ^ x1 ^ x3 = 0
    let mut m = vec![row(4, &[0, 1, 2], true), row(4, &[0, 1, 3], false)];
    gaussian_eliminate(&mut m, 4);
    assert_eq!(row_vars(&m[0]), vec![0, 1, 3]);
    assert!(!m[0].rhs);
    assert_eq!(row_vars(&m[1]), vec![2, 3]);
    assert!(m[1].rhs);
}

#[test]
fn elimination_finds_a_contradiction() {
    // x0 ^ x1 = 1, x1 ^ x2 = 1, x0 ^ x2 = 1
    let mut m = vec![row(3, &[0, 1], true), row(3, &[1, 2], true), row(3, &[0, 2], true)];
    gaussian_eliminate(&mut m, 3);
    assert_eq!(row_vars(&m[0]), vec![0, 2]);
    assert!(!m[0].rhs);
    assert_eq!(row_vars(&m[1]), vec![1, 2]);
    assert!(m[1].rhs);
    assert!(m[2].is_zero_row());
    assert!(m[2].rhs);
    let d = read_rows(&m, 3);
    assert!(d.conflict);
    assert!(!d.too_wide);
}

#[test]
fn elimination_moves_the_pivot_up() {
    let mut m = vec![row(3, &[1], false), row(3, &[0, 1], true)];
    gaussian_eliminate(&mut m, 3);
    assert_eq!(row_vars(&m[0]), vec![0]);
    assert!(m[0].rhs);
    assert_eq!(row_vars(&m[1]), vec![1]);
    assert!(!m[1].rhs);
}

#[test]
fn rows_are_read_as_units_replacements_and_clauses() {
    let m = vec![
        row(8, &[0], true),
        row(8, &[1], false),
        row(8, &[2, 5], true),
        row(8, &[3, 6], false),
        BitRow::new(8, false),
        row(8, &[4, 6, 7], true),
    ];
    let d = read_rows(&m, 8);
    assert!(!d.conflict && !d.too_wide);
    assert_eq!(d.units, vec![Lit::new(0, false), Lit::new(1, true)]);
    assert_eq!(d.replacements.len(), 2);
    assert_eq!(d.replacements.get(&5), Some(&(2, true)));
    assert_eq!(d.replacements.get(&6), Some(&(3, false)));
    assert_eq!(lit_sets(&d.expanded), lit_sets(&xor_to_cnf(&[4, 6, 7], true)));
}

#[test]
fn a_second_row_on_a_replaced_variable_is_kept() {
    let m = vec![row(8, &[0, 6], false), row(8, &[1, 6], true)];
    let d = read_rows(&m, 8);
    assert_eq!(d.replacements.len(), 1);
    assert_eq!(d.replacements.get(&6), Some(&(0, false)));
    assert_eq!(lit_sets(&d.expanded), lit_sets(&xor_to_cnf(&[1, 6], true)));
    assert_eq!(lit_sets(&d.expanded), vec![lits(&[2, 7]), lits(&[-2, -7])]);
}

#[test]
fn a_row_of_thirteen_variables_is_too_wide() {
    let wide: Vec<usize> = (0..13).collect();
    let d = read_rows(&vec![row(16, &[14], false), row(16, &wide, false), row(16, &[15], true)], 16);
    assert!(d.too_wide);
    assert!(!d.conflict);
    assert_eq!(d.units, vec![Lit::new(14, true)]);
    let twelve: Vec<usize> = (0..12).collect();
    let d = read_rows(&vec![row(16, &twelve, false)], 16);
    assert!(!d.too_wide);
    assert_eq!(d.expanded.len(), 2048);
}

#[test]
fn clauses_of_an_xor() {
    let odd = xor_to_cnf(&[0, 1, 2], true);
    assert_eq!(lit_sets(&odd), vec![lits(&[1, 2, 3]), lits(&[-1, -2, 3]), lits(&[-1, 2, -3]), lits(&[1, -2, -3])]);
    assert!(odd.iter().all(|c| !c.learned));
    let even = xor_to_cnf(&[0, 1, 2], false);
    assert_eq!(lit_sets(&even), vec![lits(&[-1, 2, 3]), lits(&[1, -2, 3]), lits(&[1, 2, -3]), lits(&[-1, -2, -3])]);
    assert_eq!(lit_sets(&xor_to_cnf(&[4], true)), vec![lits(&[5])]);
    assert_eq!(lit_sets(&xor_to_cnf(&[4], false)), vec![lits(&[-5])]);
    // the sum of no variable is 0: to ask for 1 is the empty clause
    assert_eq!(lit_sets(&xor_to_cnf(&[], true)), vec![Vec::<Lit>::new()]);
    assert!(xor_to_cnf(&[], false).is_empty());
    assert_eq!(xor_to_cnf(&[0, 1, 2, 3, 4], true).len(), 16);
}

#[test]
fn replacements_follow_chains() {
    let mut map: HashMap<usize, (usize, bool)> = HashMap::new();
    map.insert(3, (2, true));
    map.insert(2, (0, false));
    map.insert(5, (4, true));
    let out = apply_replacements(&lits(&[4, -4, 3, 6, -6, 2]), &map);
    assert_eq!(out, lits(&[-1, 1, 1, -5, 5, 2]));
    assert_eq!(apply_replacements(&out, &map), out);
    assert!(apply_replacements(&[], &map).is_empty());
}

#[test]
fn replacements_stop_after_a_hundred_and_one_steps() {
    let mut cycle: HashMap<usize, (usize, bool)> = HashMap::new();
    cycle.insert(0, (1, true));
    cycle.insert(1, (0, false));
    // 101 steps from 0 end at 1, with 51 inversions
    assert_eq!(apply_replacements(&[Lit::new(0, false)], &cycle), vec![Lit::new(1, true)]);
    let mut chain: HashMap<usize, (usize, bool)> = HashMap::new();
    for v in 0..150 {
        chain.insert(v, (v + 1, false));
    }
    assert_eq!(apply_replacements(&[Lit::new(0, true)], &chain), vec![Lit::new(101, true)]);
    assert_eq!(apply_replacements(&[Lit::new(60, false)], &chain), vec![Lit::new(150, false)]);
}

#[test]
fn simplify_sorts_and_detects_tautologies() {
    let mut c = lits(&[3, -1, 3, 2]);
    assert!(!simplify_clause(&mut c));
    assert_eq!(c, lits(&[-1, 2, 3]));
    let mut t = lits(&[3, -1, -3]);
    assert!(simplify_clause(&mut t));
    assert_eq!(t, lits(&[-1, 3, -3]));
    let mut e: Vec<Lit> = vec![];
    assert!(!simplify_clause(&mut e));
    let mut one = lits(&[-7]);
    assert!(!simplify_clause(&mut one));
    assert_eq!(one, lits(&[-7]));
}

#[test]
fn rewriting_a_clause() {
    let mut map: HashMap<usize, (usize, bool)> = HashMap::new();
    map.insert(3, (2, true));
    assert_eq!(rewrite_clause(&lits(&[4, 1]), &map, 4), (lits(&[1, -3]), false));
    assert_eq!(rewrite_clause(&lits(&[4, 3]), &map, 4), (lits(&[3, -3]), true));
    assert_eq!(rewrite_clause(&lits(&[-4, 3]), &map, 4), (lits(&[3]), false));
}

#[test]
fn rows_of_the_truth_table() {
    let (row, parity) = build_row(&[7, 8, 9], 0b101);
    assert_eq!(row.len(), 3);
    assert_eq!(row.get(&7), Some(&true));
    assert_eq!(row.get(&8), Some(&false));
    assert_eq!(row.get(&9), Some(&true));
    assert!(!parity);
    let (row, parity) = build_row(&[7, 8, 7], 0b011);
    assert_eq!(row.len(), 2);
    assert_eq!(row.get(&7), Some(&false));
    assert!(!parity);
    assert!(build_row(&[1, 2], 0b10).1);
}

#[test]
fn effect_of_a_clause() {
    let (a, _) = build_row(&[1, 2], 0b01);
    let c = |ks: &[i32]| Clause { lits: lits(ks), learned: false };
    assert_eq!(clause_effect(&c(&[1, 2, 3]), &a, 0), Effect::Nothing);
    assert_eq!(clause_effect(&c(&[1, -2, 3]), &a, 0), Effect::ForcesTrue);
    assert_eq!(clause_effect(&c(&[-1, -2, 3]), &a, 0), Effect::ForcesFalse);
    assert_eq!(clause_effect(&c(&[-2, 3]), &a, 0), Effect::Dead);
    // a clause that holds the target with its negation forces nothing
    assert_eq!(clause_effect(&c(&[1, -1, -2]), &a, 0), Effect::Nothing);
    assert_eq!(clause_effect(&c(&[-1, 1, -2]), &a, 0), Effect::Nothing);
    assert_eq!(clause_effect(&c(&[-2, 9]), &a, 0), Effect::Dead);
    assert_eq!(clause_effect(&c(&[]), &a, 0), Effect::Dead);
}

#[test]
fn xor_is_recognised() {
    let cs = clauses(&XOR3_ODD);
    let all = [0usize, 1, 2, 3];
    assert_eq!(check_semantic_xor_logic(0, &[1, 2], &all, &cs), Some(true));
    assert_eq!(check_semantic_xor_logic(2, &[0, 1], &all, &cs), Some(true));
    for i in 0..4 {
        assert_eq!(check_row(0, &[1, 2], &all, &cs, i), Some(true));
    }
    let even = clauses(&[&[-1, 2, 3], &[1, -2, 3], &[1, 2, -3], &[-1, -2, -3]]);
    assert_eq!(check_semantic_xor_logic(0, &[1, 2], &all, &even), Some(false));
}

#[test]
fn what_is_no_xor_is_not_recognised() {
    let cs = clauses(&XOR3_ODD);
    // one clause missing: a row says nothing
    assert_eq!(check_semantic_xor_logic(0, &[1, 2], &[0, 1, 2], &cs), None);
    // an conjunction: x1 = x2 & x3
    let and = clauses(&[&[-1, 2], &[-1, 3], &[1, -2, -3]]);
    assert_eq!(check_semantic_xor_logic(0, &[1, 2], &[0, 1, 2], &and), None);
    // both ways at once
    let both = clauses(&[&[1, 2], &[-1, 2]]);
    assert_eq!(check_semantic_xor_logic(0, &[1], &[0, 1], &both), None);
    // a clause without the target that the inputs can falsify
    let dead = clauses(&[&[2, 3]]);
    assert_eq!(check_semantic_xor_logic(0, &[1, 2], &[0], &dead), None);
    assert_eq!(check_row(0, &[1, 2], &[0], &dead, 0), None);
    assert_eq!(check_semantic_xor_logic(0, &[1, 2], &[], &dead), None);
}

#[test]
fn a_tautology_forces_nothing() {
    // three clauses of x1 ^ x2 ^ x3 = 1 and, for the fourth, a tautology
    let cs = clauses(&[&[1, 2, 3], &[1, -2, -3], &[1, -1, 2, -3], &[-1, -2, 3]]);
    assert_eq!(check_semantic_xor_logic(0, &[1, 2], &[0, 1, 2, 3], &cs), None);
    assert_eq!(check_row(0, &[1, 2], &[0, 1, 2, 3], &cs, 0b10), None);
    let (xors, used) = extract_semantic_xors(&cs, 3);
    assert!(xors.is_empty());
    assert!(used.is_empty());
    // with the fourth clause as well the tautology does no harm
    let all = clauses(&[&[1, 2, 3], &[1, -2, -3], &[1, -1, 2, -3], &[-1, -2, 3], &[-1, 2, -3]]);
    assert_eq!(check_semantic_xor_logic(0, &[1, 2], &[0, 1, 2, 3, 4], &all), Some(true));
}

#[test]
fn used_clauses_are_implied_by_a_constraint() {
    let cs = clauses(&[
        &[1, 2, 3],
        &[1, -2, -3],
        &[-1, 2, -3],
        &[-1, -2, 3],
        &[3, -3, 1],
        &[-1, 2, 4],
        &[1, -2, 4],
        &[1, 2, -4],
        &[-1, -2, -4],
        &[1, 5],
    ]);
    let (xors, used) = extract_semantic_xors(&cs, 5);
    assert_eq!(xors.len(), 2);
    assert_eq!(used, vec![0, 1, 2, 3, 4, 5, 6, 7, 8]);
    for &c in used.iter() {
        assert!(xors.iter().any(|x| {
            (0..32u32).all(|m| {
                let sum = x.vars.iter().fold(false, |s, &v| s != ((m >> v) & 1 == 1));
                sum != x.rhs || holds_in(m, &cs[c].lits)
            })
        }));
    }
}

#[test]
fn neighbours_in_order_of_first_occurrence() {
    let cs = clauses(&[&[3, 1, 4], &[1, -4, 2], &[5, 6]]);
    let (list, set) = collect_neighbors(&cs, &vec![0, 1], 0, 6);
    assert_eq!(list, vec![2, 3, 1]);
    assert_eq!(set.len(), 3);
    assert!(set.contains(&1) && set.contains(&2) && set.contains(&3));
    assert!(!set.contains(&0) && !set.contains(&4));
    let (list, set) = collect_neighbors(&cs, &vec![], 0, 6);
    assert!(list.is_empty() && set.is_empty());
}

#[test]
fn extraction_finds_each_output() {
    let (xors, used) = extract_semantic_xors(&clauses(&XOR3_ODD), 3);
    let found: Vec<(Vec<usize>, bool)> = xors.iter().map(|x| (x.vars.clone(), x.rhs)).collect();
    assert_eq!(found, vec![(vec![1, 2, 0], true), (vec![0, 2, 1], true), (vec![0, 1, 2], true)]);
    assert_eq!(used, vec![0, 1, 2, 3]);
}

#[test]
fn extraction_finds_nothing_in_plain_clauses() {
    let (xors, used) = extract_semantic_xors(&clauses(&[&[1, 2], &[-1, 3], &[2, 3, 4]]), 4);
    assert!(xors.is_empty());
    assert!(used.is_empty());
    let (xors, used) = extract_semantic_xors(&vec![], 0);
    assert!(xors.is_empty() && used.is_empty());
}

#[test]
fn preprocess_abstains_without_gain() {
    assert!(preprocess(&clauses(&[&[1, 2], &[-1, 3]]), 3).is_none());
    assert!(preprocess(&vec![], 0).is_none());
    // a single xor comes back as its own four clauses
    assert!(preprocess(&clauses(&XOR3_ODD), 3).is_none());
}

#[test]
fn preprocess_replaces_an_equivalent_variable() {
    // x1 ^ x2 ^ x3 = 1 and x1 ^ x2 ^ x4 = 0, and a clause on x4
    let cs = clauses(&[
        &[1, 2, 3],
        &[1, -2, -3],
        &[-1, 2, -3],
        &[-1, -2, 3],
        &[-1, 2, 4],
        &[1, -2, 4],
        &[1, 2, -4],
        &[-1, -2, -4],
    ]);
    let r = preprocess(&cs, 4).unwrap();
    assert!(r.units.is_empty());
    assert_eq!(r.replacements, vec![(3, 2, true)]);
    // x4 is replaced by the negation of x3; the second xor becomes the first
    assert_eq!(
        lit_sets(&r.clauses),
        vec![lits(&[-1, 2, -3]), lits(&[1, -2, -3]), lits(&[1, 2, 3]), lits(&[-1, -2, 3])]
    );
    assert!(r.clauses.iter().all(|c| !c.learned));
}

fn holds_in(model: u32, c: &[Lit]) -> bool {
    c.iter().any(|l| ((model >> l.var()) & 1 == 1) != l.is_neg())
}

fn links_hold_in(model: u32, links: &[(usize, usize, bool)]) -> bool {
    links.iter().all(|&(t, s, inverted)| ((model >> t) & 1 == 1) == (((model >> s) & 1 == 1) != inverted))
}

fn same_models(cs: &[Clause], num_vars: usize) {
    let r = preprocess(&cs.to_vec(), num_vars).unwrap();
    for model in 0..(1u32 << num_vars) {
        let before = cs.iter().all(|c| holds_in(model, &c.lits));
        let after = r.clauses.iter().all(|c| holds_in(model, &c.lits))
            && r.units.iter().all(|u| holds_in(model, &[*u]))
            && links_hold_in(model, &r.replacements);
        assert_eq!(before, after);
    }
    // a replaced variable is in no clause that is left, and stands for no other
    for &(t, s, _) in r.replacements.iter() {
        assert!(s < t);
        assert!(r.clauses.iter().all(|c| c.lits.iter().all(|l| l.var() != t)));
        assert!(r.units.iter().all(|u| u.var() != t));
        assert!(r.replacements.iter().all(|&(_, other, _)| other != t));
    }
}

fn xor_of(vars: &[i32], rhs: bool) -> Vec<Clause> {
    let ids: Vec<usize> = vars.iter().map(|v| (*v - 1) as usize).collect();
    xor_to_cnf(&ids, rhs)
}

#[test]
fn the_output_with_its_replacements_has_the_models_of_the_input() {
    let mut cs = xor_of(&[1, 2, 3], true);
    cs.extend(xor_of(&[1, 2, 4], false));
    cs.extend(clauses(&[&[-1, 5]]));
    same_models(&cs, 5);
}

#[test]
fn two_rows_on_one_variable_lose_nothing() {
    // x1 ^ x5 ^ x6 = 0, x2 ^ x5 ^ x6 = 0, x5 ^ x6 ^ x7 = 0
    let mut cs = xor_of(&[1, 5, 6], false);
    cs.extend(xor_of(&[2, 5, 6], false));
    cs.extend(xor_of(&[5, 6, 7], false));
    same_models(&cs, 7);
    let r = preprocess(&cs, 7).unwrap();
    assert!(!r.replacements.is_empty());
}

#[test]
fn every_model_of_the_input_is_a_model_of_the_output() {
    let cs = clauses(&[
        &[1, 2, 3],
        &[1, -2, -3],
        &[-1, 2, -3],
        &[-1, -2, 3],
        &[-1, 2, 4],
        &[1, -2, 4],
        &[1, 2, -4],
        &[-1, -2, -4],
        &[-1, 5],
    ]);
    let r = preprocess(&cs, 5).unwrap();
    let mut models = 0;
    for model in 0..32u32 {
        if cs.iter().all(|c| holds_in(model, &c.lits)) {
            models += 1;
            assert!(r.clauses.iter().all(|c| holds_in(model, &c.lits)));
            assert!(r.units.iter().all(|u| holds_in(model, &[*u])));
            assert!(links_hold_in(model, &r.replacements));
        }
    }
    assert_eq!(models, 6);
    // the clause that no constraint used up is kept, before the clauses of the rows
    assert_eq!(r.clauses.len(), 5);
    assert_eq!(r.clauses[0].lits, lits(&[-1, 5]));
}

#[test]
fn rows_hold_in_the_models_of_the_rows_they_came_from() {
    let given = vec![row(4, &[0, 1, 2], true), row(4, &[0, 1, 3], false), row(4, &[1, 3], true)];
    let mut m = vec![row(4, &[0, 1, 2], true), row(4, &[0, 1, 3], false), row(4, &[1, 3], true)];
    gaussian_eliminate(&mut m, 4);
    let sum = |r: &BitRow, model: u32| row_vars(r).iter().fold(false, |s, &v| s != ((model >> v) & 1 == 1));
    let mut models = 0;
    for model in 0..16u32 {
        if given.iter().all(|r| sum(r, model) == r.rhs) {
            models += 1;
            assert!(m.iter().all(|r| sum(r, model) == r.rhs));
        }
    }
    assert_eq!(models, 2);
}

#[test]
fn the_contradiction_is_a_single_empty_clause() {
    let r = contradiction_result();
    assert_eq!(r.clauses.len(), 1);
    assert!(r.clauses[0].lits.is_empty());
    assert!(!r.clauses[0].learned);
    assert!(r.units.is_empty());
    assert!(r.replacements.is_empty());
}
