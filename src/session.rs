//! Per-peer session state machines. The server side goes
//! Unknown, Handshaking, Connected, Disconnecting, Gone; the client side
//! Idle, Connecting, Connected, Disconnecting and back to Idle. Each is
//! driven by events and by the time now, and answers with the datagram to
//! send, if any.
use vstd::prelude::*;
use crate::handshake::TokenCheck;

verus! {

/// Milliseconds elapsed from `since` to `now`; none when the clock reads
/// earlier than `since`.
pub open spec fn elapsed(now: u64, since: u64) -> u64 {
    if now >= since { (now - since) as u64 } else { 0 }
}

fn elapsed_ms(now: u64, since: u64) -> (r: u64)
    ensures
        r == elapsed(now, since),
{
    if now >= since { now - since } else { 0 }
}

/// What a session asks its owner to send.
#[derive(Clone, Copy, Debug, PartialEq, Eq, Structural)]
pub enum SessionAction {
    Nothing,
    SendKeepalive,
    SendDisconnect,
    SendHandshakeRequest,
    SendHandshakeReply { accepted: bool, peer_id: u64 },
}

#[derive(Clone, Copy, Debug, PartialEq, Eq, Structural)]
pub enum ServerState {
    Unknown,
    Handshaking { deadline_ms: u64 },
    Connected,
    Disconnecting { remaining: u32 },
    Gone,
}

/// Timing settings shared by both ends of a session.
#[derive(Clone, Copy, Debug, PartialEq, Eq, Structural)]
pub struct SessionConfig {
    pub timeout_ms: u64,
    pub token_expire_ms: u64,
    pub keepalive_interval_ms: u64,
    pub num_disconnect_packets: u32,
}

impl SessionConfig {
    /// The defaults: 3 s timeout, 30 s token validity, 10 Hz keepalive, ten
    /// disconnect datagrams.
    pub fn default_config() -> (r: SessionConfig)
        ensures
            r.timeout_ms == 3000,
            r.token_expire_ms == 30000,
            r.keepalive_interval_ms == 100,
            r.num_disconnect_packets == 10,
    {
        SessionConfig {
            timeout_ms: 3000,
            token_expire_ms: 30000,
            keepalive_interval_ms: 100,
            num_disconnect_packets: 10,
        }
    }
}

/// The server's view of one peer.
#[derive(Clone, Copy, Debug, PartialEq, Eq, Structural)]
pub struct ServerSession {
    pub peer_id: u64,
    pub state: ServerState,
    pub last_recv_ms: u64,
    pub last_send_ms: u64,
    pub config: SessionConfig,
}

/// The server state after a disconnect datagram has gone out with
/// `remaining` more to send.
pub open spec fn after_disconnect_sent(remaining: u32) -> ServerState {
    if remaining == 0 { ServerState::Gone } else { ServerState::Disconnecting { remaining } }
}

/// One handshake request checked with verdict `v` at `now`.
pub open spec fn server_on_handshake(s: ServerSession, v: TokenCheck, now: u64) -> (ServerSession, SessionAction) {
    let deadline = match s.state {
        ServerState::Handshaking { deadline_ms } => deadline_ms,
        _ => if now as int + s.config.token_expire_ms as int > u64::MAX as int {
            u64::MAX
        } else {
            (now + s.config.token_expire_ms) as u64
        },
    };
    match s.state {
        ServerState::Unknown | ServerState::Handshaking { .. } => if v == TokenCheck::Accepted
            && now < deadline {
            (
                ServerSession {
                    state: ServerState::Connected,
                    last_recv_ms: now,
                    last_send_ms: now,
                    ..s
                },
                SessionAction::SendHandshakeReply { accepted: true, peer_id: s.peer_id },
            )
        } else {
            (ServerSession { state: ServerState::Handshaking { deadline_ms: deadline }, ..s }, SessionAction::Nothing)
        },
        ServerState::Connected => if v == TokenCheck::Accepted {
            (
                ServerSession { last_recv_ms: now, ..s },
                SessionAction::SendHandshakeReply { accepted: true, peer_id: s.peer_id },
            )
        } else {
            (s, SessionAction::Nothing)
        },
        _ => (s, SessionAction::Nothing),
    }
}

/// Any other datagram from the peer, received at `now`.
pub open spec fn server_on_packet(s: ServerSession, now: u64) -> ServerSession {
    match s.state {
        ServerState::Connected => ServerSession { last_recv_ms: now, ..s },
        _ => s,
    }
}

/// The periodic update at `now`.
pub open spec fn server_on_update(s: ServerSession, now: u64) -> (ServerSession, SessionAction) {
    match s.state {
        ServerState::Handshaking { deadline_ms } => if now >= deadline_ms {
            (ServerSession { state: ServerState::Gone, ..s }, SessionAction::Nothing)
        } else {
            (s, SessionAction::Nothing)
        },
        ServerState::Connected => if elapsed(now, s.last_recv_ms) >= s.config.timeout_ms {
            if s.config.num_disconnect_packets == 0 {
                (ServerSession { state: ServerState::Gone, ..s }, SessionAction::Nothing)
            } else {
                (
                    ServerSession {
                        state: after_disconnect_sent((s.config.num_disconnect_packets - 1) as u32),
                        last_send_ms: now,
                        ..s
                    },
                    SessionAction::SendDisconnect,
                )
            }
        } else if elapsed(now, s.last_send_ms) >= s.config.keepalive_interval_ms {
            (ServerSession { last_send_ms: now, ..s }, SessionAction::SendKeepalive)
        } else {
            (s, SessionAction::Nothing)
        },
        ServerState::Disconnecting { remaining } => (
            ServerSession {
                state: after_disconnect_sent((remaining - 1) as u32),
                last_send_ms: now,
                ..s
            },
            SessionAction::SendDisconnect,
        ),
        _ => (s, SessionAction::Nothing),
    }
}

impl ServerSession {
    pub open spec fn wf(&self) -> bool {
        match self.state {
            ServerState::Disconnecting { remaining } => remaining > 0,
            _ => true,
        }
    }

    /// A session for `peer_id` that has heard nothing yet.
    pub fn new(peer_id: u64, config: SessionConfig) -> (r: ServerSession)
        ensures
            r.wf(),
            r.peer_id == peer_id,
            r.state == ServerState::Unknown,
            r.config == config,
    {
        ServerSession { peer_id, state: ServerState::Unknown, last_recv_ms: 0, last_send_ms: 0, config }
    }

    /// A handshake request arrived and its token was checked with verdict
    /// `v`. An accepted token connects the session and is answered. A
    /// refused one is dropped silently: a session not yet connected waits,
    /// handshaking, until its deadline, and a connected one is left as it is.
    pub fn on_handshake(&mut self, v: TokenCheck, now: u64) -> (r: SessionAction)
        requires
            old(self).wf(),
        ensures
            final(self).wf(),
            (*final(self), r) == server_on_handshake(*old(self), v, now),
    {
        let deadline: u64 = match self.state {
            ServerState::Handshaking { deadline_ms } => deadline_ms,
            _ => if now > u64::MAX - self.config.token_expire_ms {
                u64::MAX
            } else {
                now + self.config.token_expire_ms
            },
        };
        match self.state {
            ServerState::Unknown | ServerState::Handshaking { .. } => {
                if v == TokenCheck::Accepted && now < deadline {
                    self.state = ServerState::Connected;
                    self.last_recv_ms = now;
                    self.last_send_ms = now;
                    SessionAction::SendHandshakeReply { accepted: true, peer_id: self.peer_id }
                } else {
                    self.state = ServerState::Handshaking { deadline_ms: deadline };
                    SessionAction::Nothing
                }
            },
            ServerState::Connected => {
                if v == TokenCheck::Accepted {
                    self.last_recv_ms = now;
                    SessionAction::SendHandshakeReply { accepted: true, peer_id: self.peer_id }
                } else {
                    SessionAction::Nothing
                }
            },
            _ => SessionAction::Nothing,
        }
    }

    /// Another datagram from the peer arrived at `now`. Only a connected
    /// session takes note; one that is disconnecting or gone ignores it.
    pub fn on_packet(&mut self, now: u64)
        requires
            old(self).wf(),
        ensures
            final(self).wf(),
            *final(self) == server_on_packet(*old(self), now),
    {
        if self.state == ServerState::Connected {
            self.last_recv_ms = now;
        }
    }

    /// The periodic update: expires a handshake past its deadline, times out
    /// a silent peer, sends keepalives and the disconnect datagrams.
    pub fn on_update(&mut self, now: u64) -> (r: SessionAction)
        requires
            old(self).wf(),
        ensures
            final(self).wf(),
            (*final(self), r) == server_on_update(*old(self), now),
    {
        match self.state {
            ServerState::Handshaking { deadline_ms } => {
                if now >= deadline_ms {
                    self.state = ServerState::Gone;
                }
                SessionAction::Nothing
            },
            ServerState::Connected => {
                if elapsed_ms(now, self.last_recv_ms) >= self.config.timeout_ms {
                    if self.config.num_disconnect_packets == 0 {
                        self.state = ServerState::Gone;
                        SessionAction::Nothing
                    } else {
                        let remaining = self.config.num_disconnect_packets - 1;
                        self.state = if remaining == 0 {
                            ServerState::Gone
                        } else {
                            ServerState::Disconnecting { remaining }
                        };
                        self.last_send_ms = now;
                        SessionAction::SendDisconnect
                    }
                } else if elapsed_ms(now, self.last_send_ms) >= self.config.keepalive_interval_ms {
                    self.last_send_ms = now;
                    SessionAction::SendKeepalive
                } else {
                    SessionAction::Nothing
                }
            },
            ServerState::Disconnecting { remaining } => {
                let rest = remaining - 1;
                self.state = if rest == 0 {
                    ServerState::Gone
                } else {
                    ServerState::Disconnecting { remaining: rest }
                };
                self.last_send_ms = now;
                SessionAction::SendDisconnect
            },
            _ => SessionAction::Nothing,
        }
    }

    /// Another datagram went out to the peer at `now`, so no keepalive is due
    /// before the interval has passed again.
    pub fn on_sent(&mut self, now: u64)
        requires
            old(self).wf(),
        ensures
            final(self).wf(),
            *final(self) == (ServerSession { last_send_ms: now, ..*old(self) }),
    {
        self.last_send_ms = now;
    }

    /// Whether the peer's datagrams still have effects on the simulation.
    pub fn accepts_effects(&self) -> (r: bool)
        ensures
            r == (self.state == ServerState::Connected),
    {
        self.state == ServerState::Connected
    }
}

/// A handshake never completed is discarded once its deadline passes: the
/// first update at or after the deadline leaves the session gone.
pub proof fn lemma_unfinished_handshake_discarded(s: ServerSession, now: u64)
    requires
        s.state matches ServerState::Handshaking { deadline_ms } && now >= deadline_ms,
    ensures
        server_on_update(s, now).0.state == ServerState::Gone,
{
}

/// A refused token is dropped silently: nothing is sent back, a session not
/// yet connected does not become connected, and a connected one is left
/// exactly as it was (its timeout is not refreshed).
pub proof fn lemma_refused_token_silent(s: ServerSession, v: TokenCheck, now: u64)
    requires
        v != TokenCheck::Accepted,
    ensures
        server_on_handshake(s, v, now).1 == SessionAction::Nothing,
        s.state != ServerState::Connected ==> server_on_handshake(s, v, now).0.state != ServerState::Connected,
        s.state == ServerState::Connected ==> server_on_handshake(s, v, now).0 == s,
{
}

/// A fresh session that receives a request with a valid token answers it
/// with acceptance under its own peer id and becomes connected.
pub proof fn lemma_valid_handshake_accepted(s: ServerSession, now: u64)
    requires
        s.state == ServerState::Unknown,
        s.config.token_expire_ms > 0,
        now < u64::MAX,
    ensures
        server_on_handshake(s, TokenCheck::Accepted, now).0.state == ServerState::Connected,
        server_on_handshake(s, TokenCheck::Accepted, now).1 == (SessionAction::SendHandshakeReply {
            accepted: true,
            peer_id: s.peer_id,
        }),
{
}

/// A client whose token is refused when its handshake starts at `t0` is
/// never connected by it, and the first update at or after `t0` plus the
/// token validity discards it.
pub proof fn lemma_refused_handshake_expires(s: ServerSession, v: TokenCheck, t0: u64, now: u64)
    requires
        s.state == ServerState::Unknown,
        v != TokenCheck::Accepted,
        t0 + s.config.token_expire_ms <= u64::MAX,
        now >= t0 + s.config.token_expire_ms,
    ensures
        server_on_handshake(s, v, t0).0.state == (ServerState::Handshaking {
            deadline_ms: (t0 + s.config.token_expire_ms) as u64,
        }),
        server_on_handshake(s, v, t0).1 == SessionAction::Nothing,
        server_on_update(server_on_handshake(s, v, t0).0, now).0.state == ServerState::Gone,
{
}

#[derive(Clone, Copy, Debug, PartialEq, Eq, Structural)]
pub enum ClientState {
    Idle,
    Connecting { started_ms: u64, sent: u32 },
    Connected { peer_id: u64 },
    Disconnecting { remaining: u32 },
}

/// The client's side of its one session.
#[derive(Clone, Copy, Debug, PartialEq, Eq, Structural)]
pub struct ClientSession {
    pub state: ClientState,
    pub last_recv_ms: u64,
    pub last_send_ms: u64,
    pub handshake_redundancy: u32,
    pub config: SessionConfig,
}

pub open spec fn client_after_disconnect_sent(remaining: u32) -> ClientState {
    if remaining == 0 { ClientState::Idle } else { ClientState::Disconnecting { remaining } }
}

pub open spec fn client_on_connect(c: ClientSession, now: u64) -> (ClientSession, SessionAction) {
    match c.state {
        ClientState::Idle => if c.handshake_redundancy == 0 {
            (c, SessionAction::Nothing)
        } else {
            (
                ClientSession {
                    state: ClientState::Connecting { started_ms: now, sent: 1 },
                    last_send_ms: now,
                    last_recv_ms: now,
                    ..c
                },
                SessionAction::SendHandshakeRequest,
            )
        },
        _ => (c, SessionAction::Nothing),
    }
}

pub open spec fn client_on_reply(c: ClientSession, accepted: bool, peer_id: u64, now: u64) -> ClientSession {
    match c.state {
        ClientState::Connecting { .. } => if accepted {
            ClientSession { state: ClientState::Connected { peer_id }, last_recv_ms: now, ..c }
        } else {
            c
        },
        _ => c,
    }
}

pub open spec fn client_on_packet(c: ClientSession, now: u64) -> ClientSession {
    match c.state {
        ClientState::Connected { .. } => ClientSession { last_recv_ms: now, ..c },
        _ => c,
    }
}

pub open spec fn client_on_update(c: ClientSession, now: u64) -> (ClientSession, SessionAction) {
    match c.state {
        ClientState::Connecting { started_ms, sent } => if elapsed(now, started_ms)
            >= c.config.token_expire_ms {
            (ClientSession { state: ClientState::Idle, ..c }, SessionAction::Nothing)
        } else if sent < c.handshake_redundancy && elapsed(now, c.last_send_ms)
            >= c.config.keepalive_interval_ms {
            (
                ClientSession {
                    state: ClientState::Connecting { started_ms, sent: (sent + 1) as u32 },
                    last_send_ms: now,
                    ..c
                },
                SessionAction::SendHandshakeRequest,
            )
        } else {
            (c, SessionAction::Nothing)
        },
        ClientState::Connected { .. } => if elapsed(now, c.last_recv_ms) >= c.config.timeout_ms {
            client_begin_disconnect(c, now)
        } else if elapsed(now, c.last_send_ms) >= c.config.keepalive_interval_ms {
            (ClientSession { last_send_ms: now, ..c }, SessionAction::SendKeepalive)
        } else {
            (c, SessionAction::Nothing)
        },
        ClientState::Disconnecting { remaining } => (
            ClientSession {
                state: client_after_disconnect_sent((remaining - 1) as u32),
                last_send_ms: now,
                ..c
            },
            SessionAction::SendDisconnect,
        ),
        ClientState::Idle => (c, SessionAction::Nothing),
    }
}

pub open spec fn client_begin_disconnect(c: ClientSession, now: u64) -> (ClientSession, SessionAction) {
    if c.config.num_disconnect_packets == 0 {
        (ClientSession { state: ClientState::Idle, ..c }, SessionAction::Nothing)
    } else {
        (
            ClientSession {
                state: client_after_disconnect_sent((c.config.num_disconnect_packets - 1) as u32),
                last_send_ms: now,
                ..c
            },
            SessionAction::SendDisconnect,
        )
    }
}

impl ClientSession {
    pub open spec fn wf(&self) -> bool {
        match self.state {
            ClientState::Disconnecting { remaining } => remaining > 0,
            _ => true,
        }
    }

    /// An idle client that will send up to `handshake_redundancy` handshake
    /// datagrams per connection attempt.
    pub fn new(handshake_redundancy: u32, config: SessionConfig) -> (r: ClientSession)
        ensures
            r.wf(),
            r.state == ClientState::Idle,
            r.handshake_redundancy == handshake_redundancy,
            r.config == config,
    {
        ClientSession { state: ClientState::Idle, last_recv_ms: 0, last_send_ms: 0, handshake_redundancy, config }
    }

    fn begin_disconnect(&mut self, now: u64) -> (r: SessionAction)
        ensures
            (*final(self), r) == client_begin_disconnect(*old(self), now),
            final(self).wf(),
    {
        if self.config.num_disconnect_packets == 0 {
            self.state = ClientState::Idle;
            SessionAction::Nothing
        } else {
            let remaining = self.config.num_disconnect_packets - 1;
            self.state = if remaining == 0 {
                ClientState::Idle
            } else {
                ClientState::Disconnecting { remaining }
            };
            self.last_send_ms = now;
            SessionAction::SendDisconnect
        }
    }

    /// Starts connecting from idle; the first handshake datagram goes out.
    pub fn connect(&mut self, now: u64) -> (r: SessionAction)
        requires
            old(self).wf(),
        ensures
            final(self).wf(),
            (*final(self), r) == client_on_connect(*old(self), now),
    {
        match self.state {
            ClientState::Idle => {
                if self.handshake_redundancy == 0 {
                    SessionAction::Nothing
                } else {
                    self.state = ClientState::Connecting { started_ms: now, sent: 1 };
                    self.last_send_ms = now;
                    self.last_recv_ms = now;
                    SessionAction::SendHandshakeRequest
                }
            },
            _ => SessionAction::Nothing,
        }
    }

    /// The server's handshake reply arrived: an acceptance connects the
    /// client under the peer id it assigns.
    pub fn on_reply(&mut self, accepted: bool, peer_id: u64, now: u64)
        requires
            old(self).wf(),
        ensures
            final(self).wf(),
            *final(self) == client_on_reply(*old(self), accepted, peer_id, now),
    {
        match self.state {
            ClientState::Connecting { .. } => {
                if accepted {
                    self.state = ClientState::Connected { peer_id };
                    self.last_recv_ms = now;
                }
            },
            _ => {},
        }
    }

    /// Another datagram from the server arrived at `now`.
    pub fn on_packet(&mut self, now: u64)
        requires
            old(self).wf(),
        ensures
            final(self).wf(),
            *final(self) == client_on_packet(*old(self), now),
    {
        match self.state {
            ClientState::Connected { .. } => {
                self.last_recv_ms = now;
            },
            _ => {},
        }
    }

    /// The periodic update: resends handshakes, gives up a connection attempt
    /// after the token validity, times out a silent server, sends keepalives
    /// and disconnect datagrams.
    pub fn on_update(&mut self, now: u64) -> (r: SessionAction)
        requires
            old(self).wf(),
        ensures
            final(self).wf(),
            (*final(self), r) == client_on_update(*old(self), now),
    {
        match self.state {
            ClientState::Connecting { started_ms, sent } => {
                if elapsed_ms(now, started_ms) >= self.config.token_expire_ms {
                    self.state = ClientState::Idle;
                    SessionAction::Nothing
                } else if sent < self.handshake_redundancy && elapsed_ms(now, self.last_send_ms)
                    >= self.config.keepalive_interval_ms {
                    self.state = ClientState::Connecting { started_ms, sent: sent + 1 };
                    self.last_send_ms = now;
                    SessionAction::SendHandshakeRequest
                } else {
                    SessionAction::Nothing
                }
            },
            ClientState::Connected { .. } => {
                if elapsed_ms(now, self.last_recv_ms) >= self.config.timeout_ms {
                    self.begin_disconnect(now)
                } else if elapsed_ms(now, self.last_send_ms) >= self.config.keepalive_interval_ms {
                    self.last_send_ms = now;
                    SessionAction::SendKeepalive
                } else {
                    SessionAction::Nothing
                }
            },
            ClientState::Disconnecting { remaining } => {
                let rest = remaining - 1;
                self.state = if rest == 0 {
                    ClientState::Idle
                } else {
                    ClientState::Disconnecting { remaining: rest }
                };
                self.last_send_ms = now;
                SessionAction::SendDisconnect
            },
            ClientState::Idle => SessionAction::Nothing,
        }
    }

    /// Another datagram went out to the server at `now`.
    pub fn on_sent(&mut self, now: u64)
        requires
            old(self).wf(),
        ensures
            final(self).wf(),
            *final(self) == (ClientSession { last_send_ms: now, ..*old(self) }),
    {
        self.last_send_ms = now;
    }

    /// The player leaves: a connected client starts sending its disconnect
    /// datagrams; a connecting one goes back to idle.
    pub fn disconnect(&mut self, now: u64) -> (r: SessionAction)
        requires
            old(self).wf(),
        ensures
            final(self).wf(),
            old(self).state matches ClientState::Connected { .. } ==> (*final(self), r)
                == client_begin_disconnect(*old(self), now),
            old(self).state matches ClientState::Connecting { .. } ==> final(self).state
                == ClientState::Idle && r == SessionAction::Nothing && final(self).config == old(self).config,
            (old(self).state matches ClientState::Idle || old(self).state matches ClientState::Disconnecting { .. })
                ==> *final(self) == *old(self) && r == SessionAction::Nothing,
    {
        match self.state {
            ClientState::Connected { .. } => self.begin_disconnect(now),
            ClientState::Connecting { .. } => {
                self.state = ClientState::Idle;
                SessionAction::Nothing
            },
            _ => SessionAction::Nothing,
        }
    }
}

/// A client connects in two steps: from idle, `connect` sends the first
/// handshake and enters connecting; the accepting reply then connects it
/// under the peer id the server assigned, with no state in between.
pub proof fn lemma_client_connects(c: ClientSession, t0: u64, t1: u64, peer_id: u64)
    requires
        c.state == ClientState::Idle,
        c.handshake_redundancy > 0,
    ensures
        client_on_connect(c, t0).1 == SessionAction::SendHandshakeRequest,
        client_on_connect(c, t0).0.state matches ClientState::Connecting { .. },
        client_on_reply(client_on_connect(c, t0).0, true, peer_id, t1).state == (ClientState::Connected {
            peer_id,
        }),
{
}

} // verus!
