use netcore::handshake::TokenCheck;
use netcore::session::{ClientSession, ClientState, ServerSession, ServerState, SessionAction, SessionConfig};

fn connected_server() -> ServerSession {
    let mut s = ServerSession::new(42, SessionConfig::default_config());
    s.on_handshake(TokenCheck::Accepted, 0);
    s
}

#[test]
fn server_times_out_peer_after_exactly_three_seconds() {
    let mut s = connected_server();
    s.on_packet(1000);
    // Keepalives while the peer is silent but not yet timed out.
    assert_eq!(s.on_update(1050), SessionAction::SendKeepalive);
    assert_eq!(s.on_update(1100), SessionAction::Nothing);
    assert_eq!(s.on_update(3999), SessionAction::SendKeepalive);
    assert_eq!(s.state, ServerState::Connected);
    assert_eq!(s.on_update(4000), SessionAction::SendDisconnect);
    assert_eq!(s.state, ServerState::Disconnecting { remaining: 9 });
    let mut sent = 1;
    let mut now = 4000;
    while s.state != ServerState::Gone {
        now += 16;
        assert_eq!(s.on_update(now), SessionAction::SendDisconnect);
        sent += 1;
    }
    assert_eq!(sent, 10);
    assert_eq!(s.on_update(now + 16), SessionAction::Nothing);
}

#[test]
fn disconnecting_session_ignores_peer() {
    let mut s = connected_server();
    s.on_update(3000);
    assert!(!s.accepts_effects());
    let before = s;
    s.on_packet(3001);
    assert_eq!(s, before);
}

#[test]
fn client_resends_handshake_then_gives_up() {
    let config = SessionConfig::default_config();
    let mut c = ClientSession::new(3, config);
    assert_eq!(c.connect(0), SessionAction::SendHandshakeRequest);
    assert_eq!(c.on_update(50), SessionAction::Nothing);
    assert_eq!(c.on_update(100), SessionAction::SendHandshakeRequest);
    assert_eq!(c.on_update(200), SessionAction::SendHandshakeRequest);
    assert_eq!(c.on_update(300), SessionAction::Nothing);
    assert_eq!(c.on_update(30000), SessionAction::Nothing);
    assert_eq!(c.state, ClientState::Idle);
}

#[test]
fn client_disconnect_goes_back_to_idle() {
    let config = SessionConfig::default_config();
    let mut c = ClientSession::new(1, config);
    c.connect(0);
    c.on_reply(true, 5, 10);
    assert_eq!(c.disconnect(20), SessionAction::SendDisconnect);
    let mut n = 1;
    while c.state != ClientState::Idle {
        assert_eq!(c.on_update(30 + n), SessionAction::SendDisconnect);
        n += 1;
    }
    assert_eq!(n, 10);
}

#[test]
fn other_traffic_postpones_keepalive() {
    let mut s = connected_server();
    s.on_sent(80);
    assert_eq!(s.on_update(150), SessionAction::Nothing);
    assert_eq!(s.on_update(180), SessionAction::SendKeepalive);
    let mut c = ClientSession::new(1, SessionConfig::default_config());
    c.connect(0);
    c.on_reply(true, 1, 0);
    c.on_sent(90);
    assert_eq!(c.on_update(120), SessionAction::Nothing);
    assert_eq!(c.on_update(190), SessionAction::SendKeepalive);
}
