// Tests for the single hypersphere pool.  All quantities are fixed-point
// quanta: one million quanta per token unit.

use orbital::errors::AmmError;
use orbital::sphere::{decompose_reserves, equal_price_point, sphere_invariant, SphereAMM};

const UNIT: u64 = 1_000_000;

fn names() -> Vec<String> {
    vec!["USDC".to_string(), "USDT".to_string()]
}

#[test]
fn test_invariant_after_swap() {
    let reserves = vec![100 * UNIT, 100 * UNIT];
    let mut amm = SphereAMM::new(names(), reserves).unwrap();
    let out = amm.swap("USDC", "USDT", 10 * UNIT).unwrap();
    assert!(out > 0);
    assert!(amm.check_invariant());
}

#[test]
fn scenario_a_radius_and_price() {
    let amm = SphereAMM::new(names(), vec![100 * UNIT, 100 * UNIT]).unwrap();
    // Solved radius is about 341.421356 token units.
    assert_eq!(amm.radius, 341_421_356);
    assert!(amm.check_invariant());
    // Equal reserves give parity: one unit of price scale exactly.
    let price = amm.get_spot_price("USDC", "USDT").unwrap();
    assert_eq!(price, UNIT as i128);
}

#[test]
fn scenario_b_swap_output_and_reserves() {
    let mut amm = SphereAMM::new(names(), vec![100 * UNIT, 100 * UNIT]).unwrap();
    let out = amm.swap("USDC", "USDT", 10 * UNIT).unwrap();
    // About 9.6 USDT out; reserves move to about [110, 90.4].
    assert_eq!(out, 9_601_946);
    assert_eq!(amm.reserves, vec![110 * UNIT, 90_398_054]);
    assert!(amm.check_invariant());
}

#[test]
fn swap_output_bounded_by_destination_reserve() {
    let mut amm = SphereAMM::new(names(), vec![100 * UNIT, 100 * UNIT]).unwrap();
    let before_to = amm.reserves[1];
    let out = amm.swap("USDC", "USDT", 50 * UNIT).unwrap();
    assert!(out > 0);
    assert!(out <= before_to);
}

#[test]
fn radius_round_trip_various_vectors() {
    let amm = SphereAMM::new(names(), vec![100 * UNIT, 100 * UNIT]).unwrap();
    assert!(amm.check_invariant());
    let tokens3 = vec!["A".to_string(), "B".to_string(), "C".to_string()];
    let amm3 = SphereAMM::new(tokens3, vec![30 * UNIT, 40 * UNIT, 50 * UNIT]).unwrap();
    assert_eq!(amm3.radius, 93_166_247);
    assert!(amm3.check_invariant());
    let empty = SphereAMM::new(Vec::new(), Vec::new()).unwrap();
    assert_eq!(empty.radius, 0);
    assert!(empty.check_invariant());
}

#[test]
fn single_token_radius_is_the_lone_reserve() {
    // The documented one-token simplification: the radius equals the reserve
    // and the general invariant is not expected to hold.
    let amm = SphereAMM::new(vec!["X".to_string()], vec![5 * UNIT]).unwrap();
    assert_eq!(amm.radius, 5 * UNIT);
}

#[test]
fn swap_rejects_zero_amount() {
    let mut amm = SphereAMM::new(names(), vec![100 * UNIT, 100 * UNIT]).unwrap();
    assert_eq!(amm.swap("USDC", "USDT", 0), Err(AmmError::InvalidAmount));
    assert_eq!(amm.reserves, vec![100 * UNIT, 100 * UNIT]);
}

#[test]
fn swap_rejects_unknown_token() {
    let mut amm = SphereAMM::new(names(), vec![100 * UNIT, 100 * UNIT]).unwrap();
    assert_eq!(amm.swap("DAI", "USDT", UNIT), Err(AmmError::TokenNotFound));
    assert_eq!(amm.swap("USDC", "DAI", UNIT), Err(AmmError::TokenNotFound));
}

#[test]
fn swap_rejects_complex_solution() {
    let mut amm = SphereAMM::new(names(), vec![100 * UNIT, 100 * UNIT]).unwrap();
    assert_eq!(
        amm.swap("USDC", "USDT", 900 * UNIT),
        Err(AmmError::ComplexSolution)
    );
    assert_eq!(amm.reserves, vec![100 * UNIT, 100 * UNIT]);
}

#[test]
fn spot_price_division_by_zero() {
    // With a single token the radius equals the reserve, so the denominator
    // of the spot price is exactly zero.
    let amm = SphereAMM::new(vec!["X".to_string()], vec![5 * UNIT]).unwrap();
    assert_eq!(amm.get_spot_price("X", "X"), Err(AmmError::DivisionByZero));
}

#[test]
fn new_rejects_length_mismatch() {
    let res = SphereAMM::new(names(), vec![100 * UNIT]);
    assert!(matches!(res, Err(AmmError::LengthMismatch)));
}

#[test]
fn new_rejects_unsolvable_reserves() {
    // Spread-out reserves whose quadratic has no real root.
    let tokens3 = vec!["A".to_string(), "B".to_string(), "C".to_string()];
    let res = SphereAMM::new(tokens3, vec![0, 0, 10 * UNIT]);
    assert!(matches!(res, Err(AmmError::ComplexSolution)));
}

#[test]
fn index_of_finds_first_occurrence() {
    let amm = SphereAMM::new(names(), vec![100 * UNIT, 100 * UNIT]).unwrap();
    assert_eq!(amm.index_of("USDC").unwrap(), 0);
    assert_eq!(amm.index_of("USDT").unwrap(), 1);
    assert_eq!(amm.index_of("DAI"), Err(AmmError::TokenNotFound));
}

#[test]
fn sphere_invariant_value_is_the_defect() {
    let amm = SphereAMM::new(names(), vec![100 * UNIT, 100 * UNIT]).unwrap();
    let d = sphere_invariant(&amm.reserves, amm.radius);
    // The exact defect left by rounding the radius to whole quanta; small
    // relative to the squared-radius magnitude of about 1.2e17.
    assert_eq!(d, -67_121_264);
    assert!(amm.check_invariant());
}

#[test]
fn equal_price_point_two_tokens() {
    // r (1 - 1/sqrt(2)) for the scenario radius: just below 100 units.
    assert_eq!(equal_price_point(341_421_356, 2), 99_999_904);
    assert_eq!(equal_price_point(341_421_356, 0), 0);
}

#[test]
fn decompose_reserves_parallel_and_orthogonal() {
    let v = vec![100 * UNIT, 200 * UNIT];
    let (mag, orth) = decompose_reserves(&v);
    assert_eq!(mag, 212_132_034);
    assert_eq!(orth, vec![-50_000_000i64, 50_000_000i64]);
}

#[test]
fn set_reserves_resolves_radius() {
    let mut amm = SphereAMM::new(names(), vec![50 * UNIT, 50 * UNIT]).unwrap();
    amm.set_reserves(vec![100 * UNIT, 100 * UNIT]).unwrap();
    assert_eq!(amm.radius, 341_421_356);
    assert!(amm.check_invariant());
    assert_eq!(
        amm.set_reserves(vec![100 * UNIT]),
        Err(AmmError::LengthMismatch)
    );
}
