use baby_giant::modular::{isqrt, modular_inverse, MAX_MODULUS};
use baby_giant::{baby_step_giant_step, modular_exponentiation, BabyGiantOps, ModularBabyGiant};

const P: u64 = 1_000_000_007;

#[test]
fn recovers_exponent_with_square_root_window() {
    let x = 123456_u64;
    let target = modular_exponentiation(2, x, P);
    assert_eq!(baby_step_giant_step(2, target, P), Some(x));
}

#[test]
fn square_and_multiply_values() {
    assert_eq!(modular_exponentiation(2, 10, 1000), 24);
    assert_eq!(modular_exponentiation(3, 0, 7), 1);
    assert_eq!(modular_exponentiation(5, 3, 13), 8);
    assert_eq!(modular_exponentiation(7, 5, 1), 0);
    assert_eq!(modular_exponentiation(u64::MAX, 2, u64::MAX - 1), 1);
    assert_eq!(modular_exponentiation(2, 30, P), 73741817);
}

#[test]
fn inverses() {
    assert_eq!(modular_inverse(3, 7), Some(5));
    assert_eq!(modular_inverse(10, 7), Some(5));
    assert_eq!(modular_inverse(4, 8), None);
    assert_eq!(modular_inverse(0, 7), None);
    assert_eq!(modular_inverse(5, 1), None);
    let y = modular_inverse(123456789, P).unwrap();
    assert_eq!((123456789_u128 * y as u128) % P as u128, 1);
}

#[test]
fn integer_square_roots() {
    assert_eq!(isqrt(0), 0);
    assert_eq!(isqrt(1), 1);
    assert_eq!(isqrt(15), 3);
    assert_eq!(isqrt(16), 4);
    assert_eq!(isqrt(P), 31622);
    assert_eq!(isqrt(u64::MAX), 4294967295);
    assert_eq!(isqrt(MAX_MODULUS), 4294967294);
}

#[test]
fn run_finds_every_exponent_in_the_window() {
    let mut solver = ModularBabyGiant::new(P, 10);
    for x in 1..=100_u64 {
        let target = modular_exponentiation(5, x, P);
        assert_eq!(solver.run(5, target), Some(x));
    }
}

#[test]
fn run_reports_no_result_past_the_window() {
    let mut solver = ModularBabyGiant::new(P, 10);
    for x in [101_u64, 102, 500, 10_000] {
        let target = modular_exponentiation(5, x, P);
        assert_eq!(solver.run(5, target), None);
    }
}

#[test]
fn collisions_keep_the_largest_index() {
    // 2 has order 3 modulo 7: 2, 4, 1, 2, 4, 1, 2, 4
    let mut solver = ModularBabyGiant::new(7, 8);
    solver.baby_steps(&2);
    let table = solver.get_baby_steps();
    assert_eq!(table.len(), 3);
    assert_eq!(table.get(&2), Some(&7));
    assert_eq!(table.get(&4), Some(&8));
    assert_eq!(table.get(&1), Some(&6));
}

#[test]
fn overwritten_index_changes_the_answer() {
    // with order 3 below the step count, 4 = 2^2 is reported under its last index 8
    let mut solver = ModularBabyGiant::new(7, 8);
    assert_eq!(solver.run(2, 4), Some(8));
    assert_eq!(modular_exponentiation(2, 8, 7), 4);
}

#[test]
fn jump_and_operation() {
    let solver = ModularBabyGiant::new(P, 31623);
    assert_eq!(solver.el_operation(&(P - 1), &(P - 1)), 1);
    let jump = solver.giant_step_jump(&2);
    let bm = modular_exponentiation(2, 31623, P);
    assert_eq!((jump as u128 * bm as u128) % P as u128, 1);
    assert_eq!(solver.process_result(5, 3), 3 * 31623 + 5);
}

#[test]
fn non_invertible_base_has_zero_jump() {
    let solver = ModularBabyGiant::new(8, 3);
    assert_eq!(solver.giant_step_jump(&2), 0);
}

#[test]
fn repeated_runs_agree() {
    let mut solver = ModularBabyGiant::new(P, 100);
    let target = modular_exponentiation(3, 4321, P);
    let a = solver.run(3, target);
    let _ = solver.run(7, 11);
    let b = solver.run(3, target);
    assert_eq!(a, Some(4321));
    assert_eq!(a, b);
}
