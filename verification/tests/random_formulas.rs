use satgpt::{Lit, RandomStrategy, Solver, VarValue};

/// A small deterministic generator for the formulas of these tests.
struct Gen(u64);

impl Gen {
    fn next(&mut self, bound: u64) -> u64 {
        self.0 = self.0.wrapping_mul(6364136223846793005).wrapping_add(1442695040888963407);
        (self.0 >> 33) % bound
    }
}

fn formula(gen: &mut Gen, num_vars: usize, num_clauses: usize, width: usize) -> Vec<Vec<Lit>> {
    let mut out = Vec::new();
    while out.len() < num_clauses {
        let mut vars: Vec<usize> = Vec::new();
        while vars.len() < width {
            let v = gen.next(num_vars as u64) as usize;
            if !vars.contains(&v) {
                vars.push(v);
            }
        }
        out.push(vars.iter().map(|&v| Lit::new(v, gen.next(2) == 1)).collect());
    }
    out
}

fn holds_in(model: u32, c: &[Lit]) -> bool {
    c.iter().any(|l| ((model >> l.var()) & 1 == 1) != l.is_neg())
}

fn satisfiable(num_vars: usize, cs: &[Vec<Lit>]) -> bool {
    (0..(1u32 << num_vars)).any(|m| cs.iter().all(|c| holds_in(m, c)))
}

fn satisfied(solver: &Solver, c: &[Lit]) -> bool {
    c.iter().any(|l| {
        let v = solver.assignments[l.var()];
        if l.is_neg() {
            v == VarValue::False
        } else {
            v == VarValue::True
        }
    })
}

#[test]
fn search_agrees_with_enumeration() {
    let mut gen = Gen(7);
    let mut sat = 0;
    let mut unsat = 0;
    for round in 0..400 {
        let num_vars = 4 + round % 5;
        let num_clauses = 3 * num_vars + round % 17;
        let cs = formula(&mut gen, num_vars, num_clauses, 2 + round % 2);
        let mut solver = Solver::new(num_vars);
        for c in cs.iter() {
            assert!(solver.add_clause(c.clone()));
        }
        let mut strategy = RandomStrategy::new(num_vars);
        let verdict = solver.search(&mut strategy);
        assert_eq!(verdict, satisfiable(num_vars, &cs));
        if verdict {
            sat += 1;
            assert!(solver.assignments.iter().all(|v| *v != VarValue::Unassigned));
            for c in cs.iter() {
                assert!(satisfied(&solver, c));
            }
        } else {
            unsat += 1;
        }
    }
    assert!(sat > 50 && unsat > 50);
}

#[test]
fn unsat_verdicts_of_solve_are_right() {
    let mut gen = Gen(99);
    let mut unsat = 0;
    for round in 0..400 {
        let num_vars = 4 + round % 6;
        let num_clauses = 4 * num_vars + round % 13;
        let cs = formula(&mut gen, num_vars, num_clauses, 3);
        let mut solver = Solver::new(num_vars);
        for c in cs.iter() {
            assert!(solver.add_clause(c.clone()));
        }
        let mut strategy = RandomStrategy::new(num_vars);
        if !solver.solve(&mut strategy) {
            unsat += 1;
            assert!(!satisfiable(num_vars, &cs));
        }
    }
    assert!(unsat > 20);
}

#[test]
fn learned_clauses_are_implied() {
    let mut gen = Gen(2024);
    let mut learned = 0;
    for round in 0..200 {
        let num_vars = 6 + round % 4;
        let cs = formula(&mut gen, num_vars, 4 * num_vars, 3);
        let mut solver = Solver::new(num_vars);
        for c in cs.iter() {
            solver.add_clause(c.clone());
        }
        let mut strategy = RandomStrategy::new(num_vars);
        solver.search(&mut strategy);
        for m in 0..(1u32 << num_vars) {
            if cs.iter().all(|c| holds_in(m, c)) {
                for c in solver.clauses.iter() {
                    assert!(holds_in(m, &c.lits));
                }
            }
        }
        learned += solver.clauses.iter().filter(|c| c.learned).count();
        for c in solver.clauses.iter().filter(|c| !c.learned) {
            let mut sorted = c.lits.clone();
            sorted.sort_by_key(|l| l.to_usize());
            assert!(cs.contains(&sorted) || cs.iter().any(|g| {
                let mut g = g.clone();
                g.sort_by_key(|l| l.to_usize());
                g == sorted
            }));
        }
    }
    assert!(learned > 100);
}
