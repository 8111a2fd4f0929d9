use netcore::tick::{add_ticks, estimate_remote_tick, is_after, sub_ticks, Timeline};

#[test]
fn sub_ticks_across_wrap() {
    assert_eq!(sub_ticks(5, 65530), 11);
    assert_eq!(sub_ticks(65530, 5), -11);
    assert_eq!(sub_ticks(1000, 998), 2);
    assert_eq!(sub_ticks(0, 0), 0);
}

#[test]
fn sub_ticks_is_antisymmetric_below_half_space() {
    let pairs: [(u16, u16); 5] = [(0, 1), (65535, 0), (100, 32867), (40000, 10000), (12345, 54321)];
    for (a, b) in pairs {
        assert_eq!(sub_ticks(a, b), -sub_ticks(b, a));
    }
}

#[test]
fn sub_ticks_matches_unwrapped_difference() {
    let x: u64 = 3 * 65536 + 100;
    let y: u64 = 2 * 65536 + 65000;
    let d = sub_ticks((x % 65536) as u16, (y % 65536) as u16);
    assert_eq!(d as i64, x as i64 - y as i64);
}

#[test]
fn add_ticks_wraps_both_ways() {
    assert_eq!(add_ticks(65535, 1), 0);
    assert_eq!(add_ticks(0, -1), 65535);
    assert_eq!(add_ticks(1000, 2), 1002);
    assert!(is_after(2, 65535));
    assert!(!is_after(65535, 2));
}

#[test]
fn timeline_at_64_hz_advances_whole_ticks() {
    let d = Timeline::duration_for_rate(64);
    assert_eq!(d, 15625);
    let mut tl = Timeline::new(65534, d);
    assert_eq!(tl.advance(10000), 0);
    assert_eq!(tl.tick, 65534);
    assert_eq!(tl.advance(21250), 2);
    assert_eq!(tl.tick, 0);
    assert_eq!(tl.accumulator_us, 0);
    assert_eq!(tl.advance(15625 * 3 + 7), 3);
    assert_eq!(tl.tick, 3);
    assert_eq!(tl.accumulator_us, 7);
}

#[test]
fn remote_tick_adds_half_round_trip() {
    // 31 ms round trip at 64 Hz: 15.5 ms one way is about one tick.
    assert_eq!(estimate_remote_tick(1000, 31000, 15625), 1001);
    assert_eq!(estimate_remote_tick(65535, 100000, 15625), 2);
    assert_eq!(estimate_remote_tick(7, 0, 15625), 7);
}

use netcore::tick::{adjusted_tick_duration, interpolation_target, predicted_target, prediction_lead};

#[test]
fn prediction_lead_and_targets() {
    // 50 ms round trip at 64 Hz: 25 ms one way is two ticks, plus a buffer of 2.
    assert_eq!(prediction_lead(50_000, 15625, 2), 4);
    assert_eq!(prediction_lead(0, 15625, 2), 2);
    assert_eq!(prediction_lead(u64::MAX, 1, 0), 32767);
    assert_eq!(predicted_target(998, 4), 1002);
    assert_eq!(interpolation_target(1, 2), 65535);
}

#[test]
fn controller_speeds_up_when_behind() {
    assert_eq!(adjusted_tick_duration(15625, 2, 2, 5), 15625);
    assert_eq!(adjusted_tick_duration(15625, 1, 2, 5), 15625 * 95 / 100);
    assert_eq!(adjusted_tick_duration(15625, -10, 2, 5), 15625 * 90 / 100);
    assert_eq!(adjusted_tick_duration(15625, 4, 2, 5), 15625 * 110 / 100);
}
