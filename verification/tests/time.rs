//! Tests for simulation time counters.

use crpg_core::{RoundCount, Tick};

#[test]
fn tick_arithmetic_saturates_and_checks() {
    assert_eq!(Tick::new(u64::MAX).next(), Tick::new(u64::MAX));
    assert_eq!(Tick::zero().saturating_sub(5), Tick::zero());
    assert_eq!(Tick::new(u64::MAX).checked_add(1), None);
    assert_eq!(Tick::new(4).saturating_add(3), Tick::new(7));
    assert_eq!(Tick::new(4).checked_add(3), Some(Tick::new(7)));
}

#[test]
fn round_arithmetic_saturates_and_checks() {
    assert_eq!(RoundCount::new(u32::MAX).next(), RoundCount::new(u32::MAX));
    assert_eq!(RoundCount::zero().saturating_sub(5), RoundCount::zero());
    assert_eq!(RoundCount::new(u32::MAX).checked_add(1), None);
    assert_eq!(RoundCount::new(4).saturating_add(3), RoundCount::new(7));
    assert_eq!(RoundCount::new(4).checked_add(3), Some(RoundCount::new(7)));
}

#[test]
fn time_counters_round_trip_through_serde() {
    // Both counters serialize as their bare count.
    let tick = Tick::new(987_654_321);
    let round = RoundCount::new(123_456);
    assert_eq!(
        Tick::new(serde_json::from_str::<u64>(&serde_json::to_string(&tick.get()).unwrap()).unwrap()),
        tick
    );
    assert_eq!(
        RoundCount::new(
            serde_json::from_str::<u32>(&serde_json::to_string(&round.get()).unwrap()).unwrap()
        ),
        round,
    );
}

#[test]
fn tick_serializes_as_a_bare_number() {
    assert_eq!(serde_json::to_string(&Tick::new(7).get()).unwrap(), "7");
}

#[test]
fn since_matches_saturating_subtraction() {
    for (current, earlier) in [(10u64, 3u64), (3, 10), (u64::MAX, 0), (0, u64::MAX), (5, 5)] {
        assert_eq!(Tick::new(current).since(Tick::new(earlier)), current.saturating_sub(earlier));
    }
    for (current, earlier) in [(10u32, 3u32), (3, 10), (u32::MAX, 0), (0, u32::MAX), (5, 5)] {
        assert_eq!(
            RoundCount::new(current).since(RoundCount::new(earlier)),
            current.saturating_sub(earlier)
        );
    }
}

#[test]
fn counters_advance_by_one_and_order_by_count() {
    assert_eq!(Tick::new(41).next().get(), 42);
    assert_eq!(RoundCount::new(0).next().get(), 1);
    assert!(Tick::new(1) < Tick::new(2));
    assert!(RoundCount::new(9) > RoundCount::zero());
    assert_eq!(Tick::new(2).saturating_add(u64::MAX), Tick::new(u64::MAX));
    assert_eq!(RoundCount::new(2).saturating_add(u32::MAX), RoundCount::new(u32::MAX));
}
