use netcore::payload::{decode_acks, decode_input_frame, encode_acks, encode_input_frame};
use netcore::replication::GroupTracker;
use netcore::snapshot::{decode_replication, encode_replication, ComponentUpdate, EntityUpdate, ReplicationFrame};
use netcore::varint::{push_varint, read_varint};

#[test]
fn input_frame_round_trip() {
    let states = vec![vec![1, 2, 3], vec![4, 5, 6], vec![7, 8, 9]];
    let bytes = encode_input_frame(1000, &states);
    assert_eq!(bytes, vec![0xe8, 0x03, 3, 1, 2, 3, 4, 5, 6, 7, 8, 9]);
    let (t, back) = decode_input_frame(&bytes, 3).unwrap();
    assert_eq!(t, 1000);
    assert_eq!(back, states);
    assert!(decode_input_frame(&bytes, 2).is_none());
    assert!(decode_input_frame(&bytes[..11], 3).is_none());
    assert_eq!(decode_input_frame(&[5, 0, 0], 4), Some((5, vec![])));
}

#[test]
fn ack_frame_round_trip() {
    let acks = vec![(42u16, 1002u16), (7, 65535)];
    let bytes = encode_acks(&acks);
    assert_eq!(bytes, vec![42, 0, 0xea, 0x03, 7, 0, 0xff, 0xff]);
    assert_eq!(decode_acks(&bytes), Some(acks));
    assert_eq!(decode_acks(&bytes[..7]), None);
    assert_eq!(decode_acks(&[]), Some(vec![]));
}

#[test]
fn varint_layout() {
    let mut out = Vec::new();
    push_varint(&mut out, 0);
    push_varint(&mut out, 127);
    push_varint(&mut out, 128);
    push_varint(&mut out, 300);
    assert_eq!(out, vec![0, 127, 0x80, 1, 0xac, 2]);
    assert_eq!(read_varint(&out, 0), Some((0, 1)));
    assert_eq!(read_varint(&out, 2), Some((128, 2)));
    assert_eq!(read_varint(&out, 4), Some((300, 2)));
    assert_eq!(read_varint(&[0x80, 0x80], 0), None);
    assert_eq!(read_varint(&[0xff; 9], 0), None);
    let mut big = Vec::new();
    push_varint(&mut big, (1u64 << 56) - 1);
    assert_eq!(big.len(), 8);
    assert_eq!(read_varint(&big, 0), Some(((1u64 << 56) - 1, 8)));
}

fn frame() -> ReplicationFrame {
    ReplicationFrame {
        tick: 1002,
        group: 42,
        entities: vec![
            EntityUpdate {
                entity: 7,
                components: vec![
                    ComponentUpdate { wire_id: 1, bytes: vec![10, 0, 0, 0] },
                    ComponentUpdate { wire_id: 2, bytes: vec![0, 0, 1] },
                ],
            },
            EntityUpdate { entity: 9, components: vec![] },
        ],
    }
}

#[test]
fn replication_frame_round_trip() {
    let bytes = encode_replication(&frame());
    assert_eq!(&bytes[..5], &[0xea, 0x03, 42, 0, 2]);
    assert_eq!(bytes.len(), 5 + (9 + 8 + 7) + 9);
    let back = decode_replication(&bytes).unwrap();
    assert_eq!(format!("{:?}", back), format!("{:?}", frame()));
    assert!(decode_replication(&bytes[..bytes.len() - 1]).is_none());
    let mut longer = bytes.clone();
    longer.push(0);
    assert!(decode_replication(&longer).is_none());
}

#[test]
fn group_updates_apply_newest_only() {
    let mut g = GroupTracker::new();
    assert!(g.accept(42, 1000));
    assert!(g.accept(7, 5));
    assert!(!g.accept(42, 999));
    assert!(!g.accept(42, 1000));
    assert!(g.accept(42, 1002));
    assert_eq!(g.acks(), vec![(42, 1002), (7, 5)]);
}
