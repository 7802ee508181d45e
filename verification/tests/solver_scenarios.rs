use satgpt::{run_solver_on_content, Lit, RandomStrategy, Solver, VarValue};

fn lit(k: i32) -> Lit {
    Lit::new((k.abs() - 1) as usize, k < 0)
}

fn clause(ks: &[i32]) -> Vec<Lit> {
    ks.iter().map(|&k| lit(k)).collect()
}

fn holds(solver: &Solver, ks: &[i32]) -> bool {
    ks.iter().any(|&k| {
        let v = solver.assignments[(k.abs() - 1) as usize];
        if k > 0 {
            v == VarValue::True
        } else {
            v == VarValue::False
        }
    })
}

fn load(num_vars: usize, cs: &[&[i32]]) -> Solver {
    let mut solver = Solver::new(num_vars);
    for c in cs.iter() {
        solver.add_clause(clause(c));
    }
    solver
}

const PIGEONS: [&[i32]; 9] = [
    &[1, 2],
    &[3, 4],
    &[5, 6],
    &[-1, -3],
    &[-1, -5],
    &[-3, -5],
    &[-2, -4],
    &[-2, -6],
    &[-4, -6],
];

// x1 ^ x2 = 1, x2 ^ x3 = 1, x3 ^ x1 = 0
const EVEN_CHAIN: [&[i32]; 6] = [&[1, 2], &[-1, -2], &[2, 3], &[-2, -3], &[3, -1], &[-3, 1]];

// x1 ^ x2 = 1, x2 ^ x3 = 1, x3 ^ x1 = 1
const ODD_CHAIN: [&[i32]; 6] = [&[1, 2], &[-1, -2], &[2, 3], &[-2, -3], &[3, 1], &[-3, -1]];

const XOR3: [&[i32]; 4] = [&[1, 2, 3], &[1, -2, -3], &[-1, 2, -3], &[-1, -2, 3]];

#[test]
fn empty_formula_is_sat() {
    let mut solver = Solver::new(0);
    let mut strategy = RandomStrategy::new(0);
    assert!(solver.solve(&mut strategy));
    assert!(run_solver_on_content(""));
}

#[test]
fn empty_clause_is_unsat() {
    let mut solver = Solver::new(1);
    assert!(!solver.add_clause(vec![]));
    let mut strategy = RandomStrategy::new(1);
    assert!(!solver.solve(&mut strategy));
}

#[test]
fn opposite_units_are_unsat() {
    let mut solver = Solver::new(1);
    assert!(solver.add_clause(clause(&[1])));
    assert!(!solver.add_clause(clause(&[-1])));
    let mut strategy = RandomStrategy::new(1);
    assert!(!solver.solve(&mut strategy));
    assert!(!run_solver_on_content("1\n-1\n"));
}

#[test]
fn three_binary_clauses_are_sat() {
    let cs: [&[i32]; 3] = [&[1, 2], &[-1, 2], &[1, -2]];
    let mut solver = load(2, &cs);
    let mut strategy = RandomStrategy::new(2);
    assert!(solver.solve(&mut strategy));
    assert_eq!(solver.assignments[0], VarValue::True);
    assert_eq!(solver.assignments[1], VarValue::True);
    for c in cs.iter() {
        assert!(holds(&solver, c));
    }
    assert!(run_solver_on_content("[1, 2]\n[-1, 2]\n[1, -2]\n"));
}

#[test]
fn pigeonhole_three_into_two_is_unsat() {
    let mut solver = load(6, &PIGEONS);
    let mut strategy = RandomStrategy::new(6);
    assert!(!solver.solve(&mut strategy));
    assert!(!run_solver_on_content(
        "p cnf 6 9\n1 2 0\n3 4 0\n5 6 0\n-1 -3 0\n-1 -5 0\n-3 -5 0\n-2 -4 0\n-2 -6 0\n-4 -6 0\n"
    ));
}

#[test]
fn odd_xor_chain_is_unsat() {
    let mut solver = load(3, &ODD_CHAIN);
    let mut strategy = RandomStrategy::new(3);
    assert!(!solver.solve(&mut strategy));
}

#[test]
fn even_xor_chain_is_sat() {
    let mut solver = load(3, &EVEN_CHAIN);
    let mut strategy = RandomStrategy::new(3);
    assert!(solver.solve(&mut strategy));
    for c in EVEN_CHAIN.iter() {
        assert!(holds(&solver, c));
    }
    assert_ne!(solver.assignments[0], solver.assignments[1]);
    assert_eq!(solver.assignments[0], solver.assignments[2]);
}

#[test]
fn xor_with_unit_is_sat() {
    let mut solver = load(3, &XOR3);
    assert!(solver.add_clause(clause(&[1])));
    let mut strategy = RandomStrategy::new(3);
    assert!(solver.solve(&mut strategy));
    assert_eq!(solver.assignments[0], VarValue::True);
    assert_eq!(solver.assignments[1], solver.assignments[2]);
    for c in XOR3.iter() {
        assert!(holds(&solver, c));
    }
}

#[test]
fn search_alone_agrees_with_solve() {
    let mut solver = load(6, &PIGEONS);
    let mut strategy = RandomStrategy::new(6);
    assert!(!solver.search(&mut strategy));
    let mut solver = load(3, &XOR3);
    let mut strategy = RandomStrategy::new(3);
    assert!(solver.search(&mut strategy));
    for c in XOR3.iter() {
        assert!(holds(&solver, c));
    }
}

#[test]
fn verdict_stays_unsat_once_found() {
    let mut solver = load(6, &PIGEONS);
    let mut strategy = RandomStrategy::new(6);
    assert!(!solver.solve(&mut strategy));
    assert!(!solver.search(&mut strategy));
    let stored = solver.clauses.len();
    assert!(solver.add_clause(clause(&[1, 2])));
    assert_eq!(solver.clauses.len(), stored + 1);
    assert!(!solver.solve(&mut strategy));
}

#[test]
fn a_clause_is_stored_after_an_empty_one() {
    let mut solver = Solver::new(2);
    assert!(!solver.add_clause(vec![]));
    assert!(solver.add_clause(clause(&[2, 1, 2])));
    assert_eq!(solver.clauses.len(), 1);
    assert_eq!(solver.clauses[0].lits, clause(&[1, 2]));
    assert!(!solver.clauses[0].learned);
    assert_eq!(solver.assignments, vec![VarValue::Unassigned, VarValue::Unassigned]);
    let mut strategy = RandomStrategy::new(2);
    assert!(!solver.solve(&mut strategy));
}

#[test]
fn unit_after_clause_propagates() {
    let mut solver = Solver::new(3);
    assert!(solver.add_clause(clause(&[-1, 2])));
    assert!(solver.add_clause(clause(&[-2, 3])));
    assert!(solver.add_clause(clause(&[1])));
    assert_eq!(solver.assignments[0], VarValue::True);
    assert_eq!(solver.assignments[1], VarValue::True);
    assert_eq!(solver.assignments[2], VarValue::True);
    assert!(!solver.add_clause(clause(&[-3])));
}

#[test]
fn unit_conflict_through_propagation() {
    let mut solver = Solver::new(2);
    assert!(solver.add_clause(clause(&[-1, 2])));
    assert!(solver.add_clause(clause(&[-1, -2])));
    assert!(!solver.add_clause(clause(&[1])));
}

#[test]
fn duplicate_literals_make_a_unit() {
    let mut solver = Solver::new(2);
    assert!(solver.add_clause(clause(&[2, 2, 2])));
    assert_eq!(solver.assignments[1], VarValue::True);
    assert_eq!(solver.clauses.len(), 0);
}

#[test]
fn clause_is_stored_sorted_and_deduplicated() {
    let mut solver = Solver::new(3);
    assert!(solver.add_clause(clause(&[3, -1, 3, 2])));
    assert_eq!(solver.clauses.len(), 1);
    assert_eq!(solver.clauses[0].lits, clause(&[-1, 2, 3]));
    assert!(!solver.clauses[0].learned);
}

#[test]
fn simplify_without_xor_changes_nothing() {
    let mut solver = load(6, &PIGEONS);
    assert_eq!(solver.simplify(), None);
    assert_eq!(solver.clauses.len(), 9);
}

#[test]
fn simplify_takes_over_what_preprocessing_returns() {
    let cs: [&[i32]; 9] = [
        &[1, 2, 3],
        &[1, -2, -3],
        &[-1, 2, -3],
        &[-1, -2, 3],
        &[-1, 2, 4],
        &[1, -2, 4],
        &[1, 2, -4],
        &[-1, -2, -4],
        &[4, 4],
    ];
    let mut solver = load(4, &cs);
    // the unit x4 was assigned on insertion; x4 is then replaced by !x3
    assert_eq!(solver.assignments[3], VarValue::True);
    assert_eq!(solver.simplify(), Some(0));
    // four clauses are left, and two tie x4 to the negation of x3
    assert_eq!(solver.clauses.len(), 6);
    assert_eq!(solver.clauses[4].lits, clause(&[3, 4]));
    assert_eq!(solver.clauses[5].lits, clause(&[-3, -4]));
    let mut strategy = RandomStrategy::new(4);
    assert!(solver.search(&mut strategy));
    for c in cs.iter() {
        assert!(holds(&solver, c));
    }
    assert_eq!(solver.assignments[2], VarValue::False);
}

#[test]
fn shared_xors_model() {
    // x1 ^ x2 ^ x3 = 1 and x1 ^ x2 ^ x4 = 0
    let cs: [&[i32]; 8] = [
        &[1, 2, 3],
        &[1, -2, -3],
        &[-1, 2, -3],
        &[-1, -2, 3],
        &[-1, 2, 4],
        &[1, -2, 4],
        &[1, 2, -4],
        &[-1, -2, -4],
    ];
    let mut solver = load(4, &cs);
    let mut strategy = RandomStrategy::new(4);
    assert!(solver.solve(&mut strategy));
    // the second constraint became the replacement of x4 by the negation
    // of x3; the model satisfies every clause that was given
    assert!(solver.clauses.len() >= 6);
    for c in cs.iter() {
        assert!(holds(&solver, c));
    }
    assert!(solver.assignments[2] != solver.assignments[3]);
    assert!(solver.assignments.iter().all(|v| *v != VarValue::Unassigned));
}

#[test]
fn a_clause_falsified_by_earlier_units_is_found() {
    let mut solver = load(2, &[&[1], &[2], &[-1, -2]]);
    let mut strategy = RandomStrategy::new(2);
    assert!(!solver.solve(&mut strategy));
    assert!(!run_solver_on_content("1\n2\n-1 -2\n"));
}

#[test]
fn a_clause_made_unit_by_earlier_units_is_propagated() {
    let cs: [&[i32]; 3] = [&[1], &[2], &[-1, -2, 3]];
    for seed in 0..8 {
        let mut solver = load(3, &cs);
        let mut strategy = RandomStrategy::new(3);
        strategy.rng_state += seed;
        assert!(solver.solve(&mut strategy));
        for c in cs.iter() {
            assert!(holds(&solver, c));
        }
        assert_eq!(solver.assignments[2], VarValue::True);
    }
}

#[test]
fn settling_puts_a_literal_that_is_not_false_first() {
    let mut solver = load(4, &[&[1], &[2], &[-1, -2, 3, 4], &[-1, 3]]);
    solver.settle();
    assert_eq!(solver.clauses.len(), 2);
    assert_eq!(solver.clauses[0].lits, clause(&[3, -2, -1, 4]));
    assert_eq!(solver.clauses[1].lits, clause(&[3, -1]));
    assert_eq!(solver.assignments[2], VarValue::Unassigned);
    let mut strategy = RandomStrategy::new(4);
    assert!(solver.search(&mut strategy));
    assert_eq!(solver.assignments[2], VarValue::True);
}

#[test]
fn settling_finds_a_falsified_clause() {
    let mut solver = load(2, &[&[1], &[2], &[-1, -2]]);
    solver.settle();
    let mut strategy = RandomStrategy::new(2);
    assert!(!solver.search(&mut strategy));
}

#[test]
fn rows_on_one_variable_keep_the_formula() {
    // x1 ^ x5 ^ x6 = 0, x2 ^ x5 ^ x6 = 0, x5 ^ x6 ^ x7 = 0, and x1 != x2
    let mut text = String::new();
    for (a, b, c) in [(1, 5, 6), (2, 5, 6), (5, 6, 7)] {
        text += &format!("-{a} {b} {c}\n{a} -{b} {c}\n{a} {b} -{c}\n-{a} -{b} -{c}\n");
    }
    assert!(run_solver_on_content(&text));
    text += "1 2\n-1 -2\n";
    assert!(!run_solver_on_content(&text));
}

#[test]
fn a_tautological_clause_does_not_mislead() {
    // x1 ^ x2 ^ x3 = 1 with one clause made a tautology, and x1 ^ x2 ^ x4 = 0
    let cs: [&[i32]; 8] = [
        &[1, 2, 3],
        &[1, -2, -3],
        &[3, -3, -1, 2],
        &[-1, -2, 3],
        &[-1, 2, 4],
        &[1, -2, 4],
        &[1, 2, -4],
        &[-1, -2, -4],
    ];
    let mut solver = load(4, &cs);
    let mut strategy = RandomStrategy::new(4);
    assert!(solver.solve(&mut strategy));
    for c in cs.iter() {
        assert!(holds(&solver, c));
    }
}

#[test]
fn an_empty_clause_leaves_the_assignment() {
    let mut solver = Solver::new(1);
    assert!(!solver.add_clause(vec![]));
    assert!(solver.clauses.is_empty());
    assert_eq!(solver.assignments, vec![VarValue::Unassigned]);
    assert!(solver.add_clause(clause(&[1])));
    assert_eq!(solver.assignments, vec![VarValue::True]);
    let mut strategy = RandomStrategy::new(1);
    assert!(!solver.solve(&mut strategy));
}

#[test]
fn a_unit_that_is_true_already_succeeds() {
    let mut solver = Solver::new(2);
    assert!(solver.add_clause(clause(&[-2])));
    assert!(solver.add_clause(clause(&[-2, -2])));
    assert_eq!(solver.assignments, vec![VarValue::Unassigned, VarValue::False]);
    assert!(!solver.add_clause(clause(&[2])));
    assert_eq!(solver.assignments, vec![VarValue::Unassigned, VarValue::False]);
}

#[test]
fn opposite_units_anywhere_in_the_text() {
    assert!(!run_solver_on_content("1 2\n-2\n3 4\n2\n"));
    assert!(!run_solver_on_content("p cnf 3 3\n3 0\n1 2 0\n-3 -3 0\n"));
}

#[test]
fn a_contradiction_stays_through_solve() {
    let mut solver = Solver::new(2);
    assert!(solver.add_clause(clause(&[1, 2])));
    assert!(!solver.add_clause(vec![]));
    let mut strategy = RandomStrategy::new(2);
    assert!(!solver.solve(&mut strategy));
    assert_eq!(solver.clauses.len(), 1);
}

#[test]
fn a_failed_unit_leaves_a_falsified_clause() {
    let mut solver = Solver::new(2);
    assert!(solver.add_clause(clause(&[-1, 2])));
    assert!(solver.add_clause(clause(&[-1, -2])));
    assert!(!solver.add_clause(clause(&[1])));
    assert_eq!(solver.assignments[0], VarValue::True);
    let falsified = solver.clauses.iter().any(|c| {
        c.lits.iter().all(|l| {
            let v = solver.assignments[l.var()];
            v == if l.is_neg() { VarValue::True } else { VarValue::False }
        })
    });
    assert!(falsified);
}

#[test]
fn propagation_leaves_no_forcing_clause() {
    let mut solver = Solver::new(5);
    assert!(solver.add_clause(clause(&[-1, 2, 3])));
    assert!(solver.add_clause(clause(&[-2, 4])));
    assert!(solver.add_clause(clause(&[-3, -4, 5])));
    assert!(solver.add_clause(clause(&[1])));
    assert!(solver.add_clause(clause(&[-3])));
    for c in solver.clauses.iter() {
        let satisfied = c.lits.iter().any(|l| {
            solver.assignments[l.var()] == if l.is_neg() { VarValue::False } else { VarValue::True }
        });
        let open = c.lits.iter().filter(|l| solver.assignments[l.var()] == VarValue::Unassigned).count();
        assert!(satisfied || open >= 2);
    }
    assert_eq!(solver.assignments[1], VarValue::True);
    assert_eq!(solver.assignments[3], VarValue::True);
    assert_eq!(solver.assignments[4], VarValue::Unassigned);
}
