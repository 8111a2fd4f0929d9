use netcore::handshake::{check_token, decode_control, encode_control, Control, TokenCheck, STATUS_ACCEPTED};
use netcore::session::{
    ClientSession, ClientState, ServerSession, ServerState, SessionAction, SessionConfig,
};

const PROTOCOL_ID: u64 = 0x1122334455667788;

fn token(client: u64, protocol: u64, expires: u64, mac: &[u8]) -> Vec<u8> {
    let mut t = Vec::new();
    t.extend_from_slice(&client.to_le_bytes());
    t.extend_from_slice(&protocol.to_le_bytes());
    t.extend_from_slice(&expires.to_le_bytes());
    t.extend_from_slice(mac);
    t
}

#[test]
fn control_messages_round_trip() {
    let msgs = vec![
        Control::HandshakeRequest { protocol_id: PROTOCOL_ID, client_id: 42, token: vec![1, 2, 3] },
        Control::HandshakeReply { status: STATUS_ACCEPTED, peer_id: 42 },
        Control::Keepalive,
        Control::Disconnect { reason: 3 },
    ];
    for m in msgs {
        let bytes = encode_control(&m);
        let back = decode_control(&bytes).unwrap();
        assert_eq!(format!("{:?}", back), format!("{:?}", m));
    }
}

#[test]
fn control_layouts() {
    let req = encode_control(&Control::HandshakeRequest { protocol_id: PROTOCOL_ID, client_id: 42, token: vec![7] });
    assert_eq!(req[0], 0x01);
    assert_eq!(&req[1..9], &PROTOCOL_ID.to_le_bytes());
    assert_eq!(&req[9..17], &42u64.to_le_bytes());
    assert_eq!(&req[17..21], &[1, 0, 0, 0]);
    assert_eq!(req[21], 7);
    assert_eq!(encode_control(&Control::Keepalive), vec![0x03]);
    assert_eq!(encode_control(&Control::Disconnect { reason: 9 }), vec![0x04, 9]);
    assert!(decode_control(&[0x03, 0]).is_none());
    assert!(decode_control(&[0x09]).is_none());
    assert!(decode_control(&req[..req.len() - 1]).is_none());
}

#[test]
fn token_checks() {
    let mac = [0u8; 16];
    let good = token(42, PROTOCOL_ID, 100, &mac);
    assert_eq!(check_token(&good, PROTOCOL_ID, 42, PROTOCOL_ID, &mac, 10), TokenCheck::Accepted);
    let other_protocol = token(42, 0x12345678, 100, &mac);
    assert_eq!(check_token(&other_protocol, PROTOCOL_ID, 42, PROTOCOL_ID, &mac, 10), TokenCheck::WrongProtocol);
    assert_eq!(check_token(&good, 0x12345678, 42, PROTOCOL_ID, &mac, 10), TokenCheck::WrongProtocol);
    let mut other_key = mac;
    other_key[5] = 1;
    let forged = token(42, PROTOCOL_ID, 100, &other_key);
    assert_eq!(check_token(&forged, PROTOCOL_ID, 42, PROTOCOL_ID, &mac, 10), TokenCheck::BadMac);
    assert_eq!(check_token(&good, PROTOCOL_ID, 43, PROTOCOL_ID, &mac, 10), TokenCheck::WrongClient);
    assert_eq!(check_token(&good, PROTOCOL_ID, 42, PROTOCOL_ID, &mac, 100), TokenCheck::Expired);
    assert_eq!(check_token(&good[..20], PROTOCOL_ID, 42, PROTOCOL_ID, &mac, 10), TokenCheck::Malformed);
}

#[test]
fn single_client_connects() {
    let config = SessionConfig::default_config();
    let mut client = ClientSession::new(10, config);
    assert_eq!(client.connect(0), SessionAction::SendHandshakeRequest);
    assert!(matches!(client.state, ClientState::Connecting { .. }));
    let mac = [0u8; 32];
    let tok = token(42, PROTOCOL_ID, 30, &mac);
    let verdict = check_token(&tok, PROTOCOL_ID, 42, PROTOCOL_ID, &mac, 0);
    let mut server = ServerSession::new(42, config);
    let reply = server.on_handshake(verdict, 10);
    assert_eq!(reply, SessionAction::SendHandshakeReply { accepted: true, peer_id: 42 });
    assert_eq!(server.state, ServerState::Connected);
    client.on_reply(true, 42, 20);
    assert_eq!(client.state, ClientState::Connected { peer_id: 42 });
}

#[test]
fn refused_handshake_expires_silently() {
    let config = SessionConfig::default_config();
    let mut server = ServerSession::new(7, config);
    assert_eq!(server.on_handshake(TokenCheck::BadMac, 1000), SessionAction::Nothing);
    assert_eq!(server.state, ServerState::Handshaking { deadline_ms: 31000 });
    assert_eq!(server.on_update(30999), SessionAction::Nothing);
    assert_eq!(server.state, ServerState::Handshaking { deadline_ms: 31000 });
    server.on_update(31000);
    assert_eq!(server.state, ServerState::Gone);
}

#[test]
fn connected_session_ignores_forged_handshake() {
    let config = SessionConfig::default_config();
    let mut server = ServerSession::new(42, config);
    server.on_handshake(TokenCheck::Accepted, 0);
    let before = server;
    assert_eq!(server.on_handshake(TokenCheck::BadMac, 2000), SessionAction::Nothing);
    assert_eq!(server.on_handshake(TokenCheck::WrongProtocol, 2500), SessionAction::Nothing);
    assert_eq!(server, before);
    // The forged requests did not refresh the timeout.
    assert_eq!(server.on_update(3000), SessionAction::SendDisconnect);
}
