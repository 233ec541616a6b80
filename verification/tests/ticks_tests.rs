// Tests for liquidity bands and the multi-band aggregator.  All quantities
// are fixed-point quanta: one million quanta per token unit.

use orbital::errors::AmmError;
use orbital::ticks::{MultiTickAMM, OrbitalTick};

const UNIT: u64 = 1_000_000;

fn names() -> Vec<String> {
    vec!["USDC".to_string(), "USDT".to_string()]
}

fn shares_of(tick: &OrbitalTick, lp: &str) -> Option<u64> {
    tick.lp_shares
        .iter()
        .find(|e| e.0 == lp)
        .map(|e| e.1)
}

#[test]
fn test_tick_state() {
    let reserves = vec![100 * UNIT, 100 * UNIT];
    let plane_constant = 50 * UNIT;
    let tick = OrbitalTick::new(names(), reserves, plane_constant).unwrap();
    assert!(tick.is_interior());
}

#[test]
fn test_multi_tick_routing() {
    let mut multi = MultiTickAMM::new(names());
    multi.add_tick(50 * UNIT, vec![100 * UNIT, 100 * UNIT]).unwrap();
    multi.add_tick(70 * UNIT, vec![50 * UNIT, 50 * UNIT]).unwrap();
    let out = multi.route_trade("USDC", "USDT", 30 * UNIT).unwrap();
    assert!(out > 0);
}

#[test]
fn scenario_c_routing_keeps_invariants() {
    let mut multi = MultiTickAMM::new(names());
    multi.add_tick(50 * UNIT, vec![100 * UNIT, 100 * UNIT]).unwrap();
    multi.add_tick(70 * UNIT, vec![50 * UNIT, 50 * UNIT]).unwrap();
    let out = multi.route_trade("USDC", "USDT", 30 * UNIT).unwrap();
    assert_eq!(out, 26_663_616);
    assert!(multi.ticks[0].sphere_amm.check_invariant());
    assert!(multi.ticks[1].sphere_amm.check_invariant());
    // The lower plane constant is consulted first and can absorb the whole
    // trade, so the second band is untouched.
    assert_eq!(multi.ticks[0].sphere_amm.reserves[0], 130 * UNIT);
    assert_eq!(multi.ticks[1].sphere_amm.reserves[0], 50 * UNIT);
    assert_eq!(multi.ticks[1].sphere_amm.reserves[1], 50 * UNIT);
}

#[test]
fn routing_conservation_on_success() {
    let mut multi = MultiTickAMM::new(names());
    multi.add_tick(50 * UNIT, vec![100 * UNIT, 100 * UNIT]).unwrap();
    multi.add_tick(70 * UNIT, vec![50 * UNIT, 50 * UNIT]).unwrap();
    let before_from = multi.global_reserves[0];
    let before_to = multi.global_reserves[1];
    let amount = 120 * UNIT;
    let out = multi.route_trade("USDC", "USDT", amount).unwrap();
    // The source reserves grow by exactly the requested amount, and the
    // output is exactly the decrease of the destination reserves.
    assert_eq!(multi.global_reserves[0], before_from + amount);
    assert_eq!(out, before_to - multi.global_reserves[1]);
}

#[test]
fn aggregate_reserves_stay_consistent() {
    let mut multi = MultiTickAMM::new(names());
    multi.add_tick(50 * UNIT, vec![100 * UNIT, 100 * UNIT]).unwrap();
    multi.add_tick(70 * UNIT, vec![50 * UNIT, 50 * UNIT]).unwrap();
    let _ = multi.route_trade("USDC", "USDT", 30 * UNIT).unwrap();
    // A failing route partially executes but still re-derives the globals.
    let res = multi.route_trade("USDC", "USDT", 100_000 * UNIT);
    assert_eq!(res, Err(AmmError::InsufficientLiquidity));
    for k in 0..2 {
        let total: u64 = multi.ticks.iter().map(|t| t.sphere_amm.reserves[k]).sum();
        assert_eq!(multi.global_reserves[k], total);
    }
}

#[test]
fn routing_fails_across_all_bands_when_amount_too_large() {
    let mut multi = MultiTickAMM::new(names());
    multi.add_tick(50 * UNIT, vec![100 * UNIT, 100 * UNIT]).unwrap();
    let before = multi.ticks[0].sphere_amm.reserves[0];
    let res = multi.route_trade("USDC", "USDT", 200 * UNIT);
    assert_eq!(res, Err(AmmError::InsufficientLiquidity));
    // Weak atomicity: the band consulted before the failure stays mutated.
    assert!(multi.ticks[0].sphere_amm.reserves[0] > before);
}

#[test]
fn routing_rejects_unknown_token() {
    let mut multi = MultiTickAMM::new(names());
    multi.add_tick(50 * UNIT, vec![100 * UNIT, 100 * UNIT]).unwrap();
    assert_eq!(
        multi.route_trade("DAI", "USDT", UNIT),
        Err(AmmError::TokenNotFound)
    );
}

#[test]
fn add_and_withdraw_liquidity_bookkeeping() {
    let mut tick = OrbitalTick::new(names(), vec![100 * UNIT, 100 * UNIT], 50 * UNIT).unwrap();
    tick.add_liquidity("lp1", &vec![10 * UNIT, 10 * UNIT]).unwrap();
    assert_eq!(tick.sphere_amm.reserves, vec![110 * UNIT, 110 * UNIT]);
    assert_eq!(tick.sphere_amm.radius, 375_563_491);
    assert_eq!(shares_of(&tick, "lp1"), Some(20 * UNIT));
    tick.add_liquidity("lp2", &vec![5 * UNIT, 5 * UNIT]).unwrap();
    assert_eq!(shares_of(&tick, "lp2"), Some(10 * UNIT));
    let withdrawn = tick.withdraw_liquidity("lp1", UNIT).unwrap();
    // lp1 held 20 of 30 share units: two thirds of each reserve leaves.
    assert_eq!(withdrawn, vec![76_666_666, 76_666_666]);
    assert_eq!(tick.sphere_amm.reserves, vec![38_333_334, 38_333_334]);
    // Full withdrawal removes the entry; the other provider is untouched.
    assert_eq!(shares_of(&tick, "lp1"), None);
    assert_eq!(shares_of(&tick, "lp2"), Some(10 * UNIT));
}

#[test]
fn partial_withdrawal_decrements_shares() {
    let mut tick = OrbitalTick::new(names(), vec![100 * UNIT, 100 * UNIT], 50 * UNIT).unwrap();
    tick.add_liquidity("lp1", &vec![10 * UNIT, 10 * UNIT]).unwrap();
    let withdrawn = tick.withdraw_liquidity("lp1", UNIT / 2).unwrap();
    assert_eq!(shares_of(&tick, "lp1"), Some(10 * UNIT));
    assert_eq!(withdrawn, vec![55 * UNIT, 55 * UNIT]);
}

#[test]
fn withdraw_unknown_lp_fails_without_mutation() {
    let mut tick = OrbitalTick::new(names(), vec![100 * UNIT, 100 * UNIT], 50 * UNIT).unwrap();
    let before_reserves = tick.sphere_amm.reserves.clone();
    let before_radius = tick.sphere_amm.radius;
    let res = tick.withdraw_liquidity("nobody", UNIT);
    assert_eq!(res, Err(AmmError::LpNotFound));
    assert_eq!(tick.sphere_amm.reserves, before_reserves);
    assert_eq!(tick.sphere_amm.radius, before_radius);
}

#[test]
fn withdraw_rejects_bad_percentage_and_zero_shares() {
    let mut tick = OrbitalTick::new(names(), vec![100 * UNIT, 100 * UNIT], 50 * UNIT).unwrap();
    assert_eq!(
        tick.withdraw_liquidity("lp1", UNIT + 1),
        Err(AmmError::InvalidPercentage)
    );
    tick.add_liquidity("lp1", &vec![0, 0]).unwrap();
    assert_eq!(tick.withdraw_liquidity("lp1", UNIT), Err(AmmError::ZeroShares));
}

#[test]
fn add_liquidity_rejects_length_mismatch() {
    let mut tick = OrbitalTick::new(names(), vec![100 * UNIT, 100 * UNIT], 50 * UNIT).unwrap();
    assert_eq!(
        tick.add_liquidity("lp1", &vec![10 * UNIT]),
        Err(AmmError::LengthMismatch)
    );
}

#[test]
fn classification_buckets() {
    let mut multi = MultiTickAMM::new(names());
    // Parallel magnitude of [100, 100] is 141.421356 units.
    multi.add_tick(50 * UNIT, vec![100 * UNIT, 100 * UNIT]).unwrap();
    multi.add_tick(141_421_356, vec![100 * UNIT, 100 * UNIT]).unwrap();
    multi.add_tick(500 * UNIT, vec![100 * UNIT, 100 * UNIT]).unwrap();
    let (interior, boundary) = multi.classify_ticks();
    assert_eq!(interior, vec![0]);
    assert_eq!(boundary, vec![1]);
}

#[test]
fn aggregated_price_weighted_average() {
    let mut multi = MultiTickAMM::new(names());
    multi.add_tick(50 * UNIT, vec![100 * UNIT, 100 * UNIT]).unwrap();
    multi.add_tick(70 * UNIT, vec![50 * UNIT, 50 * UNIT]).unwrap();
    // Both bands have equal reserves, so both prices are exactly parity.
    let price = multi.get_aggregated_price("USDC", "USDT").unwrap();
    assert_eq!(price, UNIT as i128);
    assert_eq!(
        multi.get_aggregated_price("DAI", "USDT"),
        Err(AmmError::TokenNotFound)
    );
}

#[test]
fn aggregated_price_without_liquidity() {
    let multi = MultiTickAMM::new(names());
    assert_eq!(
        multi.get_aggregated_price("USDC", "USDT"),
        Err(AmmError::NoLiquidityForPrice)
    );
}

#[test]
fn add_tick_rejects_length_mismatch() {
    let mut multi = MultiTickAMM::new(names());
    assert_eq!(
        multi.add_tick(50 * UNIT, vec![100 * UNIT]),
        Err(AmmError::LengthMismatch)
    );
}

#[test]
fn add_tick_rejects_zero_plane_constant() {
    let mut multi = MultiTickAMM::new(names());
    assert_eq!(
        multi.add_tick(0, vec![100 * UNIT, 100 * UNIT]),
        Err(AmmError::InvalidAmount)
    );
    assert_eq!(multi.ticks.len(), 0);
}

#[test]
fn aggregator_liquidity_wrappers() {
    let mut multi = MultiTickAMM::new(names());
    multi.add_tick(50 * UNIT, vec![100 * UNIT, 100 * UNIT]).unwrap();
    multi.add_liquidity(0, "lp1", &vec![10 * UNIT, 10 * UNIT]).unwrap();
    assert_eq!(multi.global_reserves, vec![110 * UNIT, 110 * UNIT]);
    let withdrawn = multi.withdraw_liquidity(0, "lp1", UNIT).unwrap();
    assert_eq!(withdrawn, vec![110 * UNIT, 110 * UNIT]);
    assert_eq!(multi.global_reserves, vec![0, 0]);
    assert_eq!(
        multi.add_liquidity(9, "lp1", &vec![UNIT, UNIT]),
        Err(AmmError::TickNotFound)
    );
}

#[test]
fn set_reserves_recomputes_radius_and_globals() {
    let mut multi = MultiTickAMM::new(names());
    multi.add_tick(50 * UNIT, vec![50 * UNIT, 50 * UNIT]).unwrap();
    multi.set_reserves(0, vec![100 * UNIT, 100 * UNIT]).unwrap();
    assert_eq!(multi.ticks[0].sphere_amm.radius, 341_421_356);
    assert_eq!(multi.global_reserves, vec![100 * UNIT, 100 * UNIT]);
    assert_eq!(
        multi.set_reserves(3, vec![UNIT, UNIT]),
        Err(AmmError::TickNotFound)
    );
}

#[test]
fn reconfigure_validates_and_builds() {
    let amm = MultiTickAMM::reconfigure(names(), vec![100 * UNIT, 100 * UNIT], 60 * UNIT).unwrap();
    assert_eq!(amm.ticks.len(), 1);
    assert_eq!(amm.ticks[0].plane_constant, 60 * UNIT);
    assert!(matches!(
        MultiTickAMM::reconfigure(Vec::new(), Vec::new(), 60 * UNIT),
        Err(AmmError::LengthMismatch)
    ));
    assert!(matches!(
        MultiTickAMM::reconfigure(names(), vec![100 * UNIT, 100 * UNIT], 0),
        Err(AmmError::InvalidAmount)
    ));
}

#[test]
fn snapshot_reports_state() {
    let mut multi = MultiTickAMM::new(names());
    multi.add_tick(50 * UNIT, vec![100 * UNIT, 100 * UNIT]).unwrap();
    let snap = multi.snapshot();
    assert_eq!(snap.tick_count, 1);
    assert_eq!(snap.token_names, names());
    assert_eq!(snap.global_reserves, vec![100 * UNIT, 100 * UNIT]);
    assert_eq!(snap.ticks[0].index, 0);
    assert_eq!(snap.ticks[0].plane_constant, 50 * UNIT);
    assert_eq!(snap.ticks[0].radius, 341_421_356);
    assert!(snap.ticks[0].is_interior);
    assert!(!snap.ticks[0].is_boundary);
    assert_eq!(snap.ticks[0].liquidity, 200 * UNIT);
}

#[test]
fn single_pool_insufficient_liquidity() {
    let mut amm = orbital::sphere::SphereAMM::new(names(), vec![100 * UNIT, 10 * UNIT]).unwrap();
    // An input of at least twice the from-distance makes the output
    // non-positive.
    assert_eq!(
        amm.swap("USDC", "USDT", 110 * UNIT),
        Err(AmmError::InsufficientLiquidity)
    );
}
