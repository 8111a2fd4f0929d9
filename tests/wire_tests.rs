use netcore::wire::{decode_datagram, encode_datagram, read_header, write_header, Frame, PacketHeader};

fn header() -> PacketHeader {
    PacketHeader { seq: 0x1234, ack: 0xfffe, ack_bits: 0x8000_0001, send_tick: 1000 }
}

#[test]
fn header_is_little_endian() {
    let mut out = Vec::new();
    write_header(&mut out, &header());
    assert_eq!(out, vec![0x34, 0x12, 0xfe, 0xff, 0x01, 0x00, 0x00, 0x80, 0xe8, 0x03]);
    assert_eq!(read_header(&out), Some(header()));
    assert_eq!(read_header(&out[..9]), None);
}

#[test]
fn datagram_round_trip() {
    let frames = vec![
        Frame { channel_id: 0, payload: vec![1, 2, 3] },
        Frame { channel_id: 2, payload: vec![] },
        Frame { channel_id: 1, payload: vec![9; 300] },
    ];
    let bytes = encode_datagram(&header(), &frames);
    assert_eq!(bytes.len(), 10 + 6 + 3 + 3 + 300);
    assert_eq!(&bytes[10..16], &[0, 3, 0, 1, 2, 3]);
    let (h, back) = decode_datagram(&bytes, 3).unwrap();
    assert_eq!(h, header());
    assert_eq!(back.len(), 3);
    for (a, b) in frames.iter().zip(back.iter()) {
        assert_eq!(a.channel_id, b.channel_id);
        assert_eq!(a.payload, b.payload);
    }
}

#[test]
fn datagram_with_unknown_channel_is_dropped() {
    let frames = vec![Frame { channel_id: 0, payload: vec![1] }, Frame { channel_id: 7, payload: vec![2] }];
    let bytes = encode_datagram(&header(), &frames);
    assert!(decode_datagram(&bytes, 3).is_none());
    assert!(decode_datagram(&bytes, 8).is_some());
}

#[test]
fn datagram_with_cut_frame_is_dropped() {
    let frames = vec![Frame { channel_id: 0, payload: vec![1, 2, 3, 4] }];
    let bytes = encode_datagram(&header(), &frames);
    assert!(decode_datagram(&bytes[..bytes.len() - 1], 3).is_none());
    assert!(decode_datagram(&bytes[..12], 3).is_none());
    let (_, none) = decode_datagram(&bytes[..10], 3).unwrap();
    assert!(none.is_empty());
}

use netcore::acks::{is_acked, AckTracker};

#[test]
fn ack_field_tracks_recent_sequences() {
    let mut t = AckTracker::new();
    assert_eq!(t.header_fields(), None);
    t.on_receive(10);
    assert_eq!(t.header_fields(), Some((10, 0)));
    t.on_receive(12);
    assert_eq!(t.header_fields(), Some((12, 0b10)));
    t.on_receive(11);
    assert_eq!(t.header_fields(), Some((12, 0b11)));
    let (ack, bits) = t.header_fields().unwrap();
    assert!(is_acked(ack, bits, 12));
    assert!(is_acked(ack, bits, 11));
    assert!(is_acked(ack, bits, 10));
    assert!(!is_acked(ack, bits, 9));
    assert!(!is_acked(ack, bits, 13));
    t.on_receive(65000);
    assert_eq!(t.header_fields(), Some((12, 0b11)));
    t.on_receive(44);
    let (ack, bits) = t.header_fields().unwrap();
    assert_eq!(ack, 44);
    assert_eq!(bits, 0x8000_0000);
    assert!(is_acked(ack, bits, 12));
    assert!(!is_acked(ack, bits, 11));
}

#[test]
fn ack_field_across_wrap() {
    let mut t = AckTracker::new();
    t.on_receive(65535);
    t.on_receive(1);
    let (ack, bits) = t.header_fields().unwrap();
    assert_eq!(ack, 1);
    assert_eq!(bits, 0b10);
    assert!(is_acked(ack, bits, 65535));
    assert!(!is_acked(ack, bits, 0));
}
