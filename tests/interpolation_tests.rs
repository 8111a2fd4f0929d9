use netcore::interpolation::{Rendered, SnapshotBuffer};

const TICK_US: u32 = 15625;

#[test]
fn blends_between_bracketing_samples() {
    let mut b = SnapshotBuffer::new(8, TICK_US);
    assert!(b.sample(0).is_none());
    assert!(b.push(10, 1000));
    assert!(b.push(12, 2000));
    let t0 = 10 * TICK_US as u64;
    assert_eq!(b.sample(t0), Some(Rendered { value: 1000, stalled: false }));
    assert_eq!(b.sample(t0 + TICK_US as u64), Some(Rendered { value: 1500, stalled: false }));
    assert_eq!(b.sample(t0 + TICK_US as u64 / 2), Some(Rendered { value: 1249, stalled: false }));
    assert_eq!(b.sample(t0 - 1), Some(Rendered { value: 1000, stalled: false }));
}

#[test]
fn single_sample_and_stall() {
    let mut b = SnapshotBuffer::new(8, TICK_US);
    b.push(4, -7);
    assert_eq!(b.sample(0), Some(Rendered { value: -7, stalled: false }));
    assert_eq!(b.sample(4 * TICK_US as u64), Some(Rendered { value: -7, stalled: false }));
    assert_eq!(b.sample(100 * TICK_US as u64), Some(Rendered { value: -7, stalled: true }));
}

#[test]
fn decreasing_values_round_toward_zero() {
    let mut b = SnapshotBuffer::new(8, 3);
    b.push(0, 0);
    b.push(1, -10);
    assert_eq!(b.sample(1).unwrap().value, -3);
    assert_eq!(b.sample(2).unwrap().value, -6);
}

#[test]
fn older_sample_is_refused_and_oldest_dropped() {
    let mut b = SnapshotBuffer::new(2, TICK_US);
    assert!(b.push(5, 1));
    assert!(!b.push(5, 2));
    assert!(!b.push(3, 2));
    assert!(b.push(6, 3));
    assert!(b.push(7, 4));
    assert_eq!(b.samples, vec![(6, 3), (7, 4)]);
}

#[test]
fn monotone_samples_render_monotone() {
    let mut b = SnapshotBuffer::new(16, TICK_US);
    let values = [0i64, 3, 3, 10, 11, 40, 41];
    for (i, v) in values.iter().enumerate() {
        b.push(100 + 2 * i as u32, *v);
    }
    let mut last = i64::MIN;
    let mut t = 99 * TICK_US as u64;
    while t < 115 * TICK_US as u64 {
        let v = b.sample(t).unwrap().value;
        assert!(v >= last);
        last = v;
        t += 1000;
    }
}

#[test]
fn retire_keeps_the_bracket() {
    let mut b = SnapshotBuffer::new(8, 10);
    for i in 0..5u32 {
        b.push(i, i as i64);
    }
    b.retire(25);
    assert_eq!(b.samples, vec![(2, 2), (3, 3), (4, 4)]);
    b.retire(1000);
    assert_eq!(b.samples, vec![(4, 4)]);
}

use netcore::interpolation::render_instant;

#[test]
fn render_instant_trails_by_the_delay() {
    assert_eq!(render_instant(1_000_000, 2, 15625), 1_000_000 - 31250);
    assert_eq!(render_instant(10, 2, 15625), 0);
}
