use netcore::prediction::{PredictionPhase, Predictor, Reconciliation, RollbackTest, ScaledMove, should_rollback};

fn within(tol: u64) -> Vec<RollbackTest> {
    vec![RollbackTest::Within(tol); 3]
}

const MM: i64 = 1000;

#[test]
fn small_correction_confirms_without_rollback() {
    // Position (10, 0, 0) predicted at tick 1000; the server says (9.5, 0, 0);
    // the threshold is 2.0.
    let sim = ScaledMove { speed: MM };
    let mut p = Predictor::new(64, within(2 * MM as u64));
    p.start(&sim, 995, vec![5 * MM, 0, 0]);
    for _ in 0..5 {
        p.predict(&sim, vec![1, 0, 0]);
    }
    assert_eq!(p.history.last().unwrap().tick, 1000);
    assert_eq!(p.history.last().unwrap().state, vec![10 * MM, 0, 0]);
    let r = p.reconcile(&sim, 1000, vec![9 * MM + MM / 2, 0, 0]);
    assert_eq!(r, Reconciliation::Confirmed);
    assert_eq!(p.confirmed, vec![9500, 0, 0]);
    assert_eq!(p.confirmed_tick, Some(1000));
    assert_eq!(p.history.last().unwrap().state, vec![10 * MM, 0, 0]);
}

#[test]
fn divergence_rolls_back_and_replays() {
    let sim = ScaledMove { speed: MM };
    let mut p = Predictor::new(64, vec![]);
    p.start(&sim, 1000, vec![0, 0, 0]);
    for i in 0..5u8 {
        p.predict(&sim, vec![1, i, 0]);
    }
    // Server state at tick 1002 differs by one millimetre in x.
    let r = p.reconcile(&sim, 1002, vec![2 * MM + 1, MM, 0]);
    assert_eq!(r, Reconciliation::RolledBack { steps: 3 });
    assert_eq!(p.history.len(), 4);
    assert_eq!(p.history[0].tick, 1002);
    // Replayed ticks 1003..=1005 with inputs (1,2,0), (1,3,0), (1,4,0).
    assert_eq!(p.history.last().unwrap().tick, 1005);
    assert_eq!(p.history.last().unwrap().state, vec![5 * MM + 1, 10 * MM, 0]);
}

#[test]
fn stale_update_is_ignored_and_far_update_resyncs() {
    let sim = ScaledMove { speed: 1 };
    let mut p = Predictor::new(4, vec![]);
    assert_eq!(p.reconcile(&sim, 1, vec![1]), Reconciliation::Ignored);
    p.start(&sim, 10, vec![0]);
    assert_eq!(p.phase, PredictionPhase::Predicting);
    for _ in 0..6 {
        p.predict(&sim, vec![1]);
    }
    assert_eq!(p.history.len(), 4);
    assert_eq!(p.reconcile(&sim, 10, vec![0]), Reconciliation::Ignored);
    assert_eq!(p.reconcile(&sim, 11, vec![1]), Reconciliation::Resynced);
    assert_eq!(p.history.len(), 1);
    assert_eq!(p.history[0].state, vec![1]);
    p.despawn();
    assert_eq!(p.phase, PredictionPhase::Despawned);
}

#[test]
fn rollback_predicate_uses_tolerance() {
    assert!(!should_rollback(&vec![10_000, 0, 0], &vec![9_500, 0, 0], &within(2_000)));
    assert!(should_rollback(&vec![10_000, 0, 0], &vec![7_500, 0, 0], &within(2_000)));
    assert!(should_rollback(&vec![1, 2], &vec![1, 2, 3], &within(100)));
    assert!(!should_rollback(&vec![i64::MIN], &vec![i64::MIN], &vec![]));
    assert!(should_rollback(&vec![5], &vec![6], &vec![]));
    assert!(!should_rollback(&vec![i64::MIN], &vec![i64::MAX], &vec![RollbackTest::Within(u64::MAX)]));
    assert!(should_rollback(&vec![i64::MIN], &vec![i64::MAX], &vec![RollbackTest::Within(u64::MAX - 1)]));
    // Per component: x within 2.0, y never, z exact.
    let tests = vec![RollbackTest::Within(2_000), RollbackTest::Never, RollbackTest::Exact];
    assert!(!should_rollback(&vec![10_000, 0, 7], &vec![9_000, 99_999, 7], &tests));
    assert!(should_rollback(&vec![10_000, 0, 7], &vec![10_000, 0, 8], &tests));
}

#[test]
fn identical_inputs_converge() {
    let sim = ScaledMove { speed: 250 };
    let inputs: Vec<Vec<u8>> = vec![vec![1, 255], vec![2, 0], vec![255, 1], vec![0, 0]];
    let mut client = Predictor::new(64, vec![]);
    client.start(&sim, 500, vec![100, 100]);
    for i in &inputs {
        client.predict(&sim, i.clone());
    }
    let mut server = Predictor::new(64, vec![]);
    server.start(&sim, 500, vec![100, 100]);
    for i in &inputs {
        server.predict(&sim, i.clone());
    }
    let auth = server.history.last().unwrap().state.clone();
    assert_eq!(client.reconcile(&sim, 504, auth), Reconciliation::Confirmed);
}

use netcore::prediction::corrected_value;

#[test]
fn correction_blends_over_its_ticks() {
    assert_eq!(corrected_value(10_000, 9_500, 0, 4), 10_000);
    assert_eq!(corrected_value(10_000, 9_500, 1, 4), 9_875);
    assert_eq!(corrected_value(10_000, 9_500, 3, 4), 9_625);
    assert_eq!(corrected_value(10_000, 9_500, 4, 4), 9_500);
    assert_eq!(corrected_value(0, 10, 1, 3), 3);
    assert_eq!(corrected_value(0, -10, 1, 3), -3);
    assert_eq!(corrected_value(i64::MIN, i64::MAX, 1, 2), -1);
}
