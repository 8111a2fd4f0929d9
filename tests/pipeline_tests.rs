use netcore::input::{InputLookup, InputRing};
use netcore::prediction::{Predictor, Reconciliation, ScaledMove};
use netcore::tick::{estimate_remote_tick, predicted_target, prediction_lead, sub_ticks, Timeline};

#[test]
fn input_round_trip_at_64_hz() {
    let d = Timeline::duration_for_rate(64);
    let rtt_us = 31_000;
    // The server stamped tick 998 on a packet; the client leads it.
    let server_now = estimate_remote_tick(998, rtt_us, d);
    let lead = prediction_lead(rtt_us, d, 1);
    let client_tick = predicted_target(server_now, lead);
    assert_eq!(client_tick, 1001);
    // The client samples input A for predicted tick 1000 and sends it.
    let a = vec![1u8, 0, 0];
    let mut client_inputs = InputRing::new(64);
    client_inputs.store(1000, a.clone());
    let window = client_inputs.window_from(1000, 8);
    // It reaches the server while the server is still before tick 1002.
    let mut server_inputs = InputRing::new(64);
    server_inputs.deposit(1000, window, 999);
    match server_inputs.lookup(1000) {
        InputLookup::Exact(v) => assert_eq!(v, a),
        _ => panic!("input A missing at the server"),
    }
    // The server's snapshot of tick 1002 reaches the predicting client.
    let sim = ScaledMove { speed: 1000 };
    let mut p = Predictor::new(64, vec![]);
    p.start(&sim, 998, vec![0, 0, 0]);
    for t in 999u16..=1004 {
        p.predict(&sim, if t == 1000 { a.clone() } else { vec![0, 0, 0] });
    }
    let r = p.reconcile(&sim, 1002, vec![1001, 0, 0]);
    match r {
        Reconciliation::RolledBack { steps } => {
            assert!(steps <= 5);
            assert_eq!(steps as i16, sub_ticks(1004, 1002));
        }
        _ => panic!("expected a rollback"),
    }
    assert_eq!(p.history.last().unwrap().state, vec![1001, 0, 0]);
}
