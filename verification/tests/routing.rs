use platform_rust::execution::ExecutionEngine;
use platform_rust::optimizer::find_route;
use platform_rust::pool::{EngineError, Pool, Token};
use platform_rust::registry::PoolRegistry;

fn token(address: &str) -> Token {
    Token { address: address.to_string(), symbol: format!("SYM-{}", address) }
}

fn pool(address: &str, t0: &str, t1: &str, fee: u32) -> Pool {
    Pool {
        address: address.to_string(),
        token0: token(t0),
        token1: token(t1),
        fee,
        liquidity: 1_000_000,
    }
}

#[test]
fn engine_id_is_a_fresh_uuid() {
    let engine = ExecutionEngine::new();
    assert_eq!(engine.engine_id().len(), 36);
    let other = ExecutionEngine::new();
    assert_ne!(engine.engine_id(), other.engine_id());
}

#[test]
fn two_hop_route_with_exact_output() {
    // Pools A-B and B-C at 0.3% each: the only route is A,B,C and the
    // output applies the fee twice.
    let engine = ExecutionEngine::new();
    engine
        .update_pools(vec![pool("p1", "A", "B", 3000), pool("p2", "B", "C", 3000)])
        .unwrap();
    let route = engine
        .optimize_route(&"A".to_string(), &"C".to_string(), 1_000_000)
        .expect("route must exist");
    assert_eq!(route.path, vec!["A".to_string(), "B".to_string(), "C".to_string()]);
    assert_eq!(route.output_amount, 994_009);
}

#[test]
fn direct_pool_beats_two_hops() {
    // Adding a direct A-C pool at 0.1% beats the two-hop route.
    let engine = ExecutionEngine::new();
    engine
        .update_pools(vec![
            pool("p1", "A", "B", 3000),
            pool("p2", "B", "C", 3000),
            pool("p3", "A", "C", 1000),
        ])
        .unwrap();
    let route = engine
        .optimize_route(&"A".to_string(), &"C".to_string(), 1_000_000)
        .expect("route must exist");
    assert_eq!(route.path, vec!["A".to_string(), "C".to_string()]);
    assert_eq!(route.output_amount, 999_000);
}

#[test]
fn unconnected_tokens_have_no_route() {
    // No chain of pools joins A to D: the result is empty, not an error.
    let engine = ExecutionEngine::new();
    engine
        .update_pools(vec![pool("p1", "A", "B", 3000), pool("p2", "C", "D", 3000)])
        .unwrap();
    let route = engine.optimize_route(&"A".to_string(), &"D".to_string(), 1_000_000);
    assert!(route.is_none());
}

#[test]
fn route_to_unknown_token_is_none() {
    let engine = ExecutionEngine::new();
    engine.update_pools(vec![pool("p1", "A", "B", 3000)]).unwrap();
    let route = engine.optimize_route(&"A".to_string(), &"Z".to_string(), 1_000_000);
    assert!(route.is_none());
}

#[test]
fn route_to_self_keeps_the_amount() {
    let engine = ExecutionEngine::new();
    engine.update_pools(vec![pool("p1", "A", "B", 3000)]).unwrap();
    let route = engine
        .optimize_route(&"A".to_string(), &"A".to_string(), 42)
        .expect("the source is always reachable");
    assert_eq!(route.path, vec!["A".to_string()]);
    assert_eq!(route.output_amount, 42);
}

#[test]
fn parallel_pools_pick_the_cheaper_fee() {
    let engine = ExecutionEngine::new();
    engine
        .update_pools(vec![pool("p1", "A", "B", 5000), pool("p2", "A", "B", 2000)])
        .unwrap();
    let route = engine
        .optimize_route(&"A".to_string(), &"B".to_string(), 1_000_000)
        .expect("route must exist");
    assert_eq!(route.output_amount, 998_000);
}

#[test]
fn find_route_works_on_a_plain_snapshot() {
    let pools = vec![pool("p1", "A", "B", 0)];
    let route = find_route(&pools, &"B".to_string(), &"A".to_string(), 7)
        .expect("zero-fee pool keeps the amount");
    assert_eq!(route.path, vec!["B".to_string(), "A".to_string()]);
    assert_eq!(route.output_amount, 7);
}

#[test]
fn zero_amount_reaches_nothing_beyond_the_source() {
    let engine = ExecutionEngine::new();
    engine.update_pools(vec![pool("p1", "A", "B", 0)]).unwrap();
    let route = engine.optimize_route(&"A".to_string(), &"B".to_string(), 0);
    assert!(route.is_none());
}

#[test]
fn self_referencing_pool_is_rejected_and_registry_unchanged() {
    let mut registry = PoolRegistry::new();
    registry.replace(vec![pool("p1", "A", "B", 3000)]).unwrap();
    let before: Vec<String> = registry.snapshot().iter().map(|p| p.address.clone()).collect();
    let err = registry
        .replace(vec![pool("p2", "C", "D", 10), pool("bad", "X", "X", 10)])
        .unwrap_err();
    assert_eq!(err, EngineError::SelfReferencingPool);
    let after: Vec<String> = registry.snapshot().iter().map(|p| p.address.clone()).collect();
    assert_eq!(before, after);
}

#[test]
fn fee_out_of_range_is_rejected() {
    let mut registry = PoolRegistry::new();
    let err = registry.replace(vec![pool("p1", "A", "B", 1_000_001)]).unwrap_err();
    assert_eq!(err, EngineError::FeeOutOfRange);
    assert!(registry.snapshot().is_empty());
}

#[test]
fn fee_of_exactly_the_denominator_is_accepted() {
    let mut registry = PoolRegistry::new();
    registry.replace(vec![pool("p1", "A", "B", 1_000_000)]).unwrap();
    assert_eq!(registry.snapshot().len(), 1);
}

#[test]
fn replace_then_snapshot_is_the_same_set_whatever_the_order() {
    let mut registry = PoolRegistry::new();
    let p1 = pool("p1", "A", "B", 3000);
    let p2 = pool("p2", "B", "C", 500);
    let p3 = pool("p3", "C", "D", 0);
    registry.replace(vec![p1.clone(), p2.clone(), p3.clone()]).unwrap();
    let mut one: Vec<String> = registry.snapshot().iter().map(|p| p.address.clone()).collect();
    registry.replace(vec![p3, p1, p2]).unwrap();
    let mut two: Vec<String> = registry.snapshot().iter().map(|p| p.address.clone()).collect();
    one.sort();
    two.sort();
    assert_eq!(one, vec!["p1".to_string(), "p2".to_string(), "p3".to_string()]);
    assert_eq!(one, two);
}

#[test]
fn duplicate_addresses_keep_the_last_candidate() {
    let mut registry = PoolRegistry::new();
    registry
        .replace(vec![pool("p1", "A", "B", 3000), pool("p1", "A", "B", 500)])
        .unwrap();
    let snapshot = registry.snapshot();
    assert_eq!(snapshot.len(), 1);
    assert_eq!(snapshot[0].fee, 500);
}

#[test]
fn update_pools_validates_through_the_engine() {
    let engine = ExecutionEngine::new();
    let err = engine.update_pools(vec![pool("bad", "X", "X", 10)]).unwrap_err();
    assert_eq!(err, EngineError::SelfReferencingPool);
}

#[test]
fn pricing_applies_the_fee_share() {
    let p = pool("p1", "A", "B", 3000);
    assert_eq!(ExecutionEngine::calculate_amount_out(&p, 1_000_000), 997_000);
    assert_eq!(ExecutionEngine::calculate_amount_out(&p, 0), 0);
    assert_eq!(ExecutionEngine::calculate_amount_out(&p, 1), 1);
    assert_eq!(ExecutionEngine::calculate_amount_out(&p, 1_000), 997);
}

#[test]
fn pricing_never_creates_value_and_is_monotonic() {
    let p = pool("p1", "A", "B", 251_337);
    let mut last = 0u128;
    for a in [0u128, 1, 2, 999, 1_000, 65_536, 1_000_000, u128::MAX / 1_000_000] {
        let out = ExecutionEngine::calculate_amount_out(&p, a);
        assert!(out <= a);
        assert!(out >= last);
        last = out;
    }
}

#[test]
fn pathological_fee_consumes_everything() {
    let p = pool("p1", "A", "B", u32::MAX);
    assert_eq!(ExecutionEngine::calculate_amount_out(&p, 123_456), 0);
    let q = pool("p2", "A", "B", 1_000_000);
    assert_eq!(ExecutionEngine::calculate_amount_out(&q, 123_456), 0);
}

#[test]
fn pricing_is_exact_on_huge_amounts() {
    let p = pool("p1", "A", "B", 1);
    let a = u128::MAX;
    // One part per million of the input, rounded down, is deducted.
    let expected = a - (a / 1_000_000);
    assert_eq!(ExecutionEngine::calculate_amount_out(&p, a), expected);
}
