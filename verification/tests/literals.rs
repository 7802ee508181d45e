use satgpt::normalize::sort_dedup;
use satgpt::{parse_lit, BranchingStrategy, Lit, RandomStrategy, Solver, VarValue};

#[test]
fn literal_encoding() {
    let p = Lit::new(5, false);
    let n = Lit::new(5, true);
    assert_eq!(p, Lit(10));
    assert_eq!(n, Lit(11));
    assert_eq!(p.var(), 5);
    assert_eq!(n.var(), 5);
    assert!(!p.is_neg());
    assert!(n.is_neg());
    assert_eq!(p.to_usize(), 10);
    assert_eq!(n.to_usize(), 11);
}

#[test]
fn negation_flips_the_low_bit() {
    let p = Lit::new(7, false);
    assert_eq!(p.not(), Lit::new(7, true));
    assert_eq!(p.not().not(), p);
    assert_ne!(p.not(), p);
    assert_eq!(Lit(0).not(), Lit(1));
    assert_eq!(Lit(u32::MAX).not(), Lit(u32::MAX - 1));
}

#[test]
fn only_the_low_bits_of_the_variable_are_kept() {
    assert_eq!(Lit::new(0x8000_0000, false), Lit(0));
    assert_eq!(Lit::new(0x8000_0003, true), Lit(7));
    assert_eq!(Lit::new(0x7fff_ffff, true), Lit(u32::MAX));
}

#[test]
fn numbers_to_literals() {
    assert_eq!(parse_lit(1), (Lit::new(0, false), 0));
    assert_eq!(parse_lit(-1), (Lit::new(0, true), 0));
    assert_eq!(parse_lit(42), (Lit(82), 41));
    assert_eq!(parse_lit(-42), (Lit(83), 41));
    assert_eq!(parse_lit(i32::MAX), (Lit(0xffff_fffc), 0x7fff_fffe));
    assert_eq!(parse_lit(-i32::MAX), (Lit(0xffff_fffd), 0x7fff_fffe));
}

#[test]
fn sort_dedup_orders_by_code_and_drops_repeats() {
    let mut lits = vec![Lit(9), Lit(2), Lit(9), Lit(3), Lit(2), Lit(0)];
    sort_dedup(&mut lits);
    assert_eq!(lits, vec![Lit(0), Lit(2), Lit(3), Lit(9)]);
    let mut empty: Vec<Lit> = vec![];
    sort_dedup(&mut empty);
    assert!(empty.is_empty());
    let mut one = vec![Lit(4), Lit(4)];
    sort_dedup(&mut one);
    assert_eq!(one, vec![Lit(4)]);
}

#[test]
fn xorshift_sequence() {
    let mut strategy = RandomStrategy::new(3);
    assert_eq!(strategy.rng_state, 123456789);
    assert_eq!(strategy.next_rand() as u64, 132100702508589007u64 as usize as u64);
    assert_eq!(strategy.rng_state, 132100702508589007);
    strategy.next_rand();
    assert_eq!(strategy.rng_state, 14571250924493977904);
    assert_eq!(strategy.num_vars, 3);
}

#[test]
fn random_pick_scans_from_a_random_start() {
    let solver = Solver::new(4);
    let mut strategy = RandomStrategy::new(4);
    // the first number is 3 modulo 4, the second is even
    assert_eq!(strategy.pick_branch(&solver), Some(Lit::new(3, true)));
    assert_eq!(strategy.rng_state, 14571250924493977904);
}

#[test]
fn random_pick_passes_over_assigned_variables() {
    let mut solver = Solver::new(4);
    assert!(solver.add_clause(vec![Lit::new(3, false)]));
    assert!(solver.add_clause(vec![Lit::new(0, true)]));
    let mut strategy = RandomStrategy::new(4);
    // the scan starts at 3, wraps to 0, and stops at 1
    let picked = strategy.pick_branch(&solver).unwrap();
    assert_eq!(picked.var(), 1);
    assert!(picked.is_neg());
}

#[test]
fn random_pick_finds_nothing_when_all_is_assigned() {
    let mut solver = Solver::new(2);
    assert!(solver.add_clause(vec![Lit::new(0, false)]));
    assert!(solver.add_clause(vec![Lit::new(1, true)]));
    let mut strategy = RandomStrategy::new(2);
    assert_eq!(strategy.pick_branch(&solver), None);
    assert_eq!(strategy.rng_state, 132100702508589007);
    let empty = Solver::new(0);
    let mut none = RandomStrategy::new(0);
    assert_eq!(none.pick_branch(&empty), None);
    assert_eq!(none.rng_state, 123456789);
}

#[test]
fn hooks_of_the_random_strategy_do_nothing() {
    let mut strategy = RandomStrategy::new(3);
    strategy.on_conflict(&[0, 2]);
    strategy.on_assign(1);
    strategy.on_unassign(1, true);
    assert_eq!(strategy.rng_state, 123456789);
    assert_eq!(strategy.num_vars, 3);
}

#[test]
fn new_solver_has_nothing_assigned() {
    let solver = Solver::new(3);
    assert_eq!(solver.assignments, vec![VarValue::Unassigned; 3]);
    assert!(solver.clauses.is_empty());
}
