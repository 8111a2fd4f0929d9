use netcore::channel::{ChannelMode, OrderedReceiver, SequencedReceiver};

#[test]
fn sequenced_drops_older() {
    let mut rx = SequencedReceiver::new();
    assert!(rx.receive(5));
    assert!(!rx.receive(3));
    assert!(!rx.receive(5));
    assert!(rx.receive(6));
    assert!(!rx.receive(2));
    assert_eq!(rx.latest, Some(6));
}

#[test]
fn sequenced_across_wrap() {
    let mut rx = SequencedReceiver::new();
    assert!(rx.receive(65534));
    assert!(rx.receive(1));
    assert!(!rx.receive(65535));
}

#[test]
fn ordered_delivers_in_send_order() {
    let mut rx = OrderedReceiver::new(64);
    let sent: Vec<Vec<u8>> = (0..6u8).map(|i| vec![i]).collect();
    let mut delivered: Vec<Vec<u8>> = Vec::new();
    for &s in &[2u64, 0, 0, 1, 5, 4, 2, 3] {
        delivered.extend(rx.receive(s, sent[s as usize].clone()));
    }
    assert_eq!(delivered, sent);
    assert_eq!(rx.next, 6);
    assert!(rx.slots.is_empty());
}

#[test]
fn ordered_drops_beyond_window() {
    let mut rx = OrderedReceiver::new(2);
    assert!(rx.receive(5, vec![5]).is_empty());
    assert!(rx.slots.is_empty());
    assert!(rx.receive(2, vec![2]).is_empty());
    assert_eq!(rx.receive(0, vec![0]), vec![vec![0]]);
    assert_eq!(rx.receive(1, vec![1]), vec![vec![1], vec![2]]);
}

#[test]
fn ordered_under_heavy_loss_and_reordering() {
    // Each message is offered until it gets through; half of all attempts
    // are lost, and arrivals are shuffled.
    let n: u64 = 40;
    let mut rx = OrderedReceiver::new(64);
    let mut delivered: Vec<u8> = Vec::new();
    let mut round: u64 = 0;
    while (rx.next as u64) < n {
        for s in 0..n {
            let k = (s * 7 + round * 13) % n;
            if (k + round) % 2 == 0 {
                for m in rx.receive(k, vec![k as u8]) {
                    delivered.push(m[0]);
                }
            }
        }
        round += 1;
    }
    let expected: Vec<u8> = (0..n as u8).collect();
    assert_eq!(delivered, expected);
}

#[test]
fn reliable_modes() {
    assert!(ChannelMode::OrderedReliable.is_reliable());
    assert!(ChannelMode::UnorderedReliable.is_reliable());
    assert!(!ChannelMode::SequencedUnreliable.is_reliable());
    assert!(!ChannelMode::UnorderedUnreliable.is_reliable());
}

use netcore::channel::UnorderedReceiver;

#[test]
fn unordered_hands_on_each_message_once() {
    let mut rx = UnorderedReceiver::new(8);
    let mut delivered = Vec::new();
    for &s in &[3u64, 0, 3, 1, 0, 2, 5, 4, 20, 5] {
        if rx.receive(s) {
            delivered.push(s);
        }
    }
    assert_eq!(delivered, vec![3, 0, 1, 2, 5, 4]);
    assert_eq!(rx.next, 6);
    assert!(rx.seen.is_empty());
    assert!(rx.receive(7));
    assert!(!rx.receive(7));
    assert!(rx.receive(6));
    assert_eq!(rx.next, 8);
}
