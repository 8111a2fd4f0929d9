use netcore::reliable::{backoff_us, ReliableSender, ResendOutcome, RttEstimator};

#[test]
fn rtt_and_rto() {
    let mut r = RttEstimator::new();
    assert_eq!(r.rto_us(), 20_000);
    r.add_sample(50_000);
    assert_eq!(r.srtt_us, 50_000);
    assert_eq!(r.rto_us(), 100_000);
    r.add_sample(58_000);
    assert_eq!(r.srtt_us, 50_000 - 6_250 + 7_250);
    r.add_sample(4_000_000);
    assert_eq!(r.rto_us(), 1_000_000);
    let mut small = RttEstimator::new();
    small.add_sample(3_000);
    assert_eq!(small.rto_us(), 20_000);
}

#[test]
fn backoff_doubles_up_to_cap() {
    assert_eq!(backoff_us(100_000, 0), 100_000);
    assert_eq!(backoff_us(100_000, 1), 200_000);
    assert_eq!(backoff_us(100_000, 3), 800_000);
    assert_eq!(backoff_us(100_000, 4), 1_000_000);
    assert_eq!(backoff_us(5_000_000, 0), 1_000_000);
}

#[test]
fn send_ack_and_resend() {
    let mut tx = ReliableSender::new(3);
    assert_eq!(tx.send(vec![1], 0), 0);
    assert_eq!(tx.send(vec![2], 0), 1);
    assert_eq!(tx.send(vec![3], 10), 2);
    assert!(tx.ack(1));
    assert!(!tx.ack(1));
    assert_eq!(tx.in_flight.len(), 2);
    match tx.poll_resend(100_000, 100_000) {
        ResendOutcome::Resend(v) => assert_eq!(v, vec![0]),
        ResendOutcome::Lost => panic!("not lost yet"),
    }
    assert_eq!(tx.in_flight[0].attempts, 1);
    assert_eq!(tx.in_flight[0].last_sent_us, 100_000);
    assert_eq!(tx.payload_at(1), &vec![3]);
    match tx.poll_resend(100_010, 100_000) {
        ResendOutcome::Resend(v) => assert_eq!(v, vec![2]),
        ResendOutcome::Lost => panic!("not lost yet"),
    }
}

#[test]
fn too_many_retries_lose_the_session() {
    let mut tx = ReliableSender::new(2);
    tx.send(vec![9], 0);
    let mut now = 0;
    for _ in 0..2 {
        now += 1_000_000;
        assert!(matches!(tx.poll_resend(now, 20_000), ResendOutcome::Resend(_)));
    }
    now += 1_000_000;
    assert!(matches!(tx.poll_resend(now, 20_000), ResendOutcome::Lost));
}

use netcore::channel::{OrderedReceiver, SequencedReceiver};

#[test]
fn reliable_message_under_loss_arrives_once_in_time() {
    // Round trip 50 ms. The initial send and the first resend are lost; the
    // second resend gets through.
    let mut rtt = RttEstimator::new();
    rtt.add_sample(50_000);
    let rto = rtt.rto_us();
    let mut tx = ReliableSender::new(8);
    let mut rx = OrderedReceiver::new(64);
    let seq = tx.send(vec![42], 0);
    let mut delivered: Vec<(u64, Vec<u8>)> = Vec::new();
    let mut attempt = 0;
    let mut now: u64 = 0;
    while now <= 1_000_000 {
        if let ResendOutcome::Resend(due) = tx.poll_resend(now, rto) {
            for s in due {
                attempt += 1;
                let lost = attempt == 1;
                if !lost {
                    let arrival = now + 25_000;
                    for m in rx.receive(s, vec![42]) {
                        delivered.push((arrival, m));
                    }
                    // A duplicate copy also arrives later.
                    assert!(rx.receive(s, vec![42]).is_empty());
                    tx.ack(s);
                }
            }
        }
        now += 10_000;
    }
    assert_eq!(seq, 0);
    assert_eq!(delivered.len(), 1);
    assert!(delivered[0].0 <= 500_000);
    assert!(tx.in_flight.is_empty());
}

#[test]
fn replicated_position_never_reverses() {
    // Snapshots of a rising position arrive out of order; older ones are dropped.
    let mut rx = SequencedReceiver::new();
    let mut shown = Vec::new();
    for &(tick, pos) in &[(1u16, 10i64), (3, 30), (2, 20), (5, 50), (4, 40), (6, 60)] {
        if rx.receive(tick) {
            shown.push(pos);
        }
    }
    assert_eq!(shown, vec![10, 30, 50, 60]);
}
