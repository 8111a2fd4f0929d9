use netcore::replication::{
    delta_decode, delta_encode, dirty_components, pack_groups, ComponentStore, Visibility,
};

#[test]
fn visibility_targets() {
    assert!(Visibility::All.is_visible_to(3));
    assert!(Visibility::Single(3).is_visible_to(3));
    assert!(!Visibility::Single(3).is_visible_to(4));
    assert!(!Visibility::AllExcept(3).is_visible_to(3));
    assert!(Visibility::AllExcept(3).is_visible_to(4));
}

#[test]
fn groups_are_sent_or_deferred_whole() {
    // Group 0 holds Position and Velocity of one entity: 2 x 12 bytes.
    let sizes = vec![24, 1000, 200, 40];
    let chosen = pack_groups(&sizes, 1200);
    assert_eq!(chosen, vec![true, true, false, true]);
    let sent: usize = sizes.iter().zip(chosen.iter()).filter(|(_, c)| **c).map(|(s, _)| *s).sum();
    assert!(sent <= 1200);
    assert_eq!(pack_groups(&sizes, 10), vec![false, false, false, false]);
    assert_eq!(pack_groups(&vec![], 10), Vec::<bool>::new());
}

#[test]
fn unchanged_state_sends_nothing() {
    let current = vec![vec![1, 2], vec![3]];
    let baseline = vec![Some(vec![1, 2]), Some(vec![3])];
    assert!(dirty_components(&current, &baseline).is_empty());
    let changed = vec![vec![1, 2], vec![4], vec![5]];
    assert_eq!(dirty_components(&changed, &baseline), vec![1, 2]);
    assert_eq!(dirty_components(&current, &vec![None, Some(vec![3])]), vec![0]);
}

#[test]
fn delta_round_trip() {
    let base = vec![0x10, 0x20, 0x30];
    let new = vec![0x11, 0x20, 0xff];
    let d = delta_encode(&base, &new);
    assert_eq!(d, vec![0x01, 0x00, 0xcf]);
    assert_eq!(delta_decode(&base, &d), Some(new));
    assert_eq!(delta_decode(&base, &vec![1]), None);
}

#[test]
fn client_store_applies_and_reapplies() {
    let mut s = ComponentStore::new();
    s.apply(2, vec![7]);
    assert_eq!(s.get(2), Some(vec![7]));
    assert_eq!(s.get(0), None);
    assert_eq!(s.get(9), None);
    let before = s.values.clone();
    s.apply(2, vec![7]);
    assert_eq!(s.values, before);
    s.apply(0, vec![1]);
    assert_eq!(s.get(0), Some(vec![1]));
}

use netcore::replication::{decode_value, encode_value, Baseline};

#[test]
fn delta_only_with_matching_baseline() {
    let cur = vec![5, 6, 7];
    let base = vec![5, 6, 0];
    let (is_delta, payload) = encode_value(&cur, Some(&base), true);
    assert!(is_delta);
    assert_eq!(payload, vec![0, 0, 7]);
    assert_eq!(decode_value(is_delta, &payload, Some(&base)), Some(cur.clone()));
    let (is_delta, payload) = encode_value(&cur, Some(&vec![1]), true);
    assert!(!is_delta);
    assert_eq!(payload, cur);
    let (is_delta, payload) = encode_value(&cur, Some(&base), false);
    assert!(!is_delta);
    assert_eq!(payload, cur);
    let (is_delta, _) = encode_value(&cur, None, true);
    assert!(!is_delta);
    assert_eq!(decode_value(true, &vec![1, 2], None), None);
}

#[test]
fn ack_moves_the_baseline() {
    let mut b = Baseline::new();
    b.record_sent(10, vec![1]);
    b.record_sent(11, vec![2]);
    b.record_sent(12, vec![3]);
    b.on_ack(11);
    assert_eq!(b.acked, Some((11, vec![2])));
    assert_eq!(b.pending, vec![(12, vec![3])]);
    b.on_ack(9);
    assert_eq!(b.acked, Some((11, vec![2])));
    assert_eq!(b.pending, vec![(12, vec![3])]);
}

use netcore::prediction::RollbackTest;
use netcore::replication::{
    find_descriptor, route, snapshot_due, ComponentDescriptor, EntityRole, ReplicationMode, Route,
};

#[test]
fn routing_by_mode_and_role() {
    assert_eq!(route(ReplicationMode::Once, EntityRole::Interpolated), Route::Apply);
    assert_eq!(route(ReplicationMode::Once, EntityRole::Predicted), Route::Apply);
    assert_eq!(route(ReplicationMode::Full, EntityRole::Interpolated), Route::Buffer);
    assert_eq!(route(ReplicationMode::Full, EntityRole::Predicted), Route::Predict);
    assert_eq!(route(ReplicationMode::Full, EntityRole::Plain), Route::Apply);
    let registry = vec![
        ComponentDescriptor { wire_id: 1, mode: ReplicationMode::Full, delta: true, rollback: RollbackTest::Within(2000) },
        ComponentDescriptor { wire_id: 2, mode: ReplicationMode::Once, delta: false, rollback: RollbackTest::Never },
    ];
    assert_eq!(find_descriptor(&registry, 2).unwrap().mode, ReplicationMode::Once);
    assert!(find_descriptor(&registry, 3).is_none());
}

#[test]
fn snapshot_schedule() {
    assert!(snapshot_due(150, 100, 100, true));
    assert!(!snapshot_due(150, 100, 100, false));
    assert!(snapshot_due(200, 100, 100, false));
    assert!(!snapshot_due(50, 100, 100, false));
}
