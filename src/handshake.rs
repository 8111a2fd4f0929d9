//! Connection control messages (handshake request and reply, keepalive,
//! disconnect) and the server's check of a client's connect token.
use vstd::prelude::*;
use crate::bytes::{le_bytes, le_value, push_le, read_le, lemma_le_bytes_len, lemma_le_round_trip, lemma_pow256_values, lemma_le_value_bound};

verus! {

pub const KIND_HANDSHAKE_REQUEST: u8 = 0x01;
pub const KIND_HANDSHAKE_REPLY: u8 = 0x02;
pub const KIND_KEEPALIVE: u8 = 0x03;
pub const KIND_DISCONNECT: u8 = 0x04;

/// Reply status for an accepted handshake.
pub const STATUS_ACCEPTED: u8 = 0;
/// Reply status for a refused handshake.
pub const STATUS_REFUSED: u8 = 1;

#[derive(Debug)]
pub enum Control {
    HandshakeRequest { protocol_id: u64, client_id: u64, token: Vec<u8> },
    HandshakeReply { status: u8, peer_id: u64 },
    Keepalive,
    Disconnect { reason: u8 },
}

pub enum ControlView {
    HandshakeRequest { protocol_id: u64, client_id: u64, token: Seq<u8> },
    HandshakeReply { status: u8, peer_id: u64 },
    Keepalive,
    Disconnect { reason: u8 },
}

impl View for Control {
    type V = ControlView;

    open spec fn view(&self) -> ControlView {
        match self {
            Control::HandshakeRequest { protocol_id, client_id, token } => ControlView::HandshakeRequest {
                protocol_id: *protocol_id,
                client_id: *client_id,
                token: token@,
            },
            Control::HandshakeReply { status, peer_id } => ControlView::HandshakeReply {
                status: *status,
                peer_id: *peer_id,
            },
            Control::Keepalive => ControlView::Keepalive,
            Control::Disconnect { reason } => ControlView::Disconnect { reason: *reason },
        }
    }
}

pub open spec fn control_bytes(m: ControlView) -> Seq<u8> {
    match m {
        ControlView::HandshakeRequest { protocol_id, client_id, token } => seq![0x01u8] + le_bytes(
            protocol_id as nat,
            8,
        ) + le_bytes(client_id as nat, 8) + le_bytes(token.len(), 4) + token,
        ControlView::HandshakeReply { status, peer_id } => seq![0x02u8, status] + le_bytes(
            peer_id as nat,
            8,
        ),
        ControlView::Keepalive => seq![0x03u8],
        ControlView::Disconnect { reason } => seq![0x04u8, reason],
    }
}

/// The control message that `s` holds exactly, if any.
pub open spec fn parse_control(s: Seq<u8>) -> Option<ControlView> {
    if s.len() == 0 {
        None
    } else if s[0] == 0x01 {
        if s.len() < 21 {
            None
        } else {
            let n = le_value(s.subrange(17, 21)) as int;
            if s.len() != 21 + n {
                None
            } else {
                Some(
                    ControlView::HandshakeRequest {
                        protocol_id: le_value(s.subrange(1, 9)) as u64,
                        client_id: le_value(s.subrange(9, 17)) as u64,
                        token: s.subrange(21, s.len() as int),
                    },
                )
            }
        }
    } else if s[0] == 0x02 {
        if s.len() != 10 {
            None
        } else {
            Some(
                ControlView::HandshakeReply {
                    status: s[1],
                    peer_id: le_value(s.subrange(2, 10)) as u64,
                },
            )
        }
    } else if s[0] == 0x03 {
        if s.len() != 1 {
            None
        } else {
            Some(ControlView::Keepalive)
        }
    } else if s[0] == 0x04 {
        if s.len() != 2 {
            None
        } else {
            Some(ControlView::Disconnect { reason: s[1] })
        }
    } else {
        None
    }
}

pub open spec fn control_fits(m: ControlView) -> bool {
    match m {
        ControlView::HandshakeRequest { token, .. } => token.len() < 0x1_0000_0000,
        _ => true,
    }
}

/// Encodes a control message.
pub fn encode_control(m: &Control) -> (r: Vec<u8>)
    requires
        control_fits(m@),
    ensures
        r@ == control_bytes(m@),
{
    let mut out: Vec<u8> = Vec::new();
    match m {
        Control::HandshakeRequest { protocol_id, client_id, token } => {
            out.push(KIND_HANDSHAKE_REQUEST);
            push_le(&mut out, *protocol_id, 8);
            push_le(&mut out, *client_id, 8);
            push_le(&mut out, token.len() as u64, 4);
            let ghost mid = out@;
            let mut i: usize = 0;
            while i < token.len()
                invariant
                    i <= token@.len(),
                    out@ == mid + token@.subrange(0, i as int),
                decreases token@.len() - i,
            {
                out.push(token[i]);
                assert(token@.subrange(0, i + 1) =~= token@.subrange(0, i as int).push(token@[i as int]));
                i = i + 1;
            }
            assert(token@.subrange(0, i as int) =~= token@);
            assert(out@ =~= control_bytes(m@));
        },
        Control::HandshakeReply { status, peer_id } => {
            out.push(KIND_HANDSHAKE_REPLY);
            out.push(*status);
            push_le(&mut out, *peer_id, 8);
            assert(out@ =~= control_bytes(m@));
        },
        Control::Keepalive => {
            out.push(KIND_KEEPALIVE);
            assert(out@ =~= control_bytes(m@));
        },
        Control::Disconnect { reason } => {
            out.push(KIND_DISCONNECT);
            out.push(*reason);
            assert(out@ =~= control_bytes(m@));
        },
    }
    out
}

/// Decodes a control message that fills `buf` exactly.
pub fn decode_control(buf: &[u8]) -> (r: Option<Control>)
    ensures
        match r {
            None => parse_control(buf@) is None,
            Some(m) => parse_control(buf@) == Some(m@),
        },
{
    let len = buf.len();
    if len == 0 {
        return None;
    }
    proof {
        lemma_pow256_values();
    }
    let kind = buf[0];
    if kind == KIND_HANDSHAKE_REQUEST {
        if len < 21 {
            return None;
        }
        let n = match read_le(buf, 17, 4) {
            Some(n) => n,
            None => return None,
        };
        proof {
            lemma_le_value_bound(buf@.subrange(17, 21));
        }
        if n as usize != len - 21 || n > (len - 21) as u64 {
            return None;
        }
        let p = read_le(buf, 1, 8);
        let c = read_le(buf, 9, 8);
        match (p, c) {
            (Some(p), Some(c)) => {
                proof {
                    lemma_le_value_bound(buf@.subrange(1, 9));
                    lemma_le_value_bound(buf@.subrange(9, 17));
                }
                let mut token: Vec<u8> = Vec::new();
                let mut i: usize = 21;
                while i < len
                    invariant
                        21 <= i <= len,
                        len == buf@.len(),
                        token@ == buf@.subrange(21, i as int),
                    decreases len - i,
                {
                    token.push(buf[i]);
                    assert(buf@.subrange(21, i + 1) =~= buf@.subrange(21, i as int).push(buf@[i as int]));
                    i = i + 1;
                }
                Some(Control::HandshakeRequest { protocol_id: p, client_id: c, token })
            },
            _ => None,
        }
    } else if kind == KIND_HANDSHAKE_REPLY {
        if len != 10 {
            return None;
        }
        match read_le(buf, 2, 8) {
            Some(p) => {
                proof {
                    lemma_le_value_bound(buf@.subrange(2, 10));
                }
                Some(Control::HandshakeReply { status: buf[1], peer_id: p })
            },
            None => None,
        }
    } else if kind == KIND_KEEPALIVE {
        if len != 1 {
            return None;
        }
        Some(Control::Keepalive)
    } else if kind == KIND_DISCONNECT {
        if len != 2 {
            return None;
        }
        Some(Control::Disconnect { reason: buf[1] })
    } else {
        None
    }
}

/// Decoding an encoded control message gives the message back.
pub proof fn lemma_control_round_trip(m: ControlView)
    requires
        control_fits(m),
    ensures
        parse_control(control_bytes(m)) == Some(m),
{
    lemma_pow256_values();
    let s = control_bytes(m);
    match m {
        ControlView::HandshakeRequest { protocol_id, client_id, token } => {
            lemma_le_bytes_len(protocol_id as nat, 8);
            lemma_le_bytes_len(client_id as nat, 8);
            lemma_le_bytes_len(token.len(), 4);
            lemma_le_round_trip(protocol_id as nat, 8);
            lemma_le_round_trip(client_id as nat, 8);
            lemma_le_round_trip(token.len(), 4);
            assert(s.subrange(1, 9) =~= le_bytes(protocol_id as nat, 8));
            assert(s.subrange(9, 17) =~= le_bytes(client_id as nat, 8));
            assert(s.subrange(17, 21) =~= le_bytes(token.len(), 4));
            assert(s.subrange(21, s.len() as int) =~= token);
        },
        ControlView::HandshakeReply { status, peer_id } => {
            lemma_le_bytes_len(peer_id as nat, 8);
            lemma_le_round_trip(peer_id as nat, 8);
            assert(s.subrange(2, 10) =~= le_bytes(peer_id as nat, 8));
        },
        ControlView::Keepalive => {},
        ControlView::Disconnect { reason } => {},
    }
}

/// Bytes of a connect token ahead of its MAC: client id, protocol id and
/// expiry time in seconds, each eight bytes.
pub const TOKEN_FIELDS_LEN: usize = 24;

/// What the server concludes of a connect token.
#[derive(Clone, Copy, Debug, PartialEq, Eq, Structural)]
pub enum TokenCheck {
    Accepted,
    Malformed,
    WrongProtocol,
    WrongClient,
    Expired,
    BadMac,
}

/// Verdict on `token` presented in a handshake request carrying
/// `request_protocol` and `request_client`, for a server with protocol id
/// `server_protocol` that derived `expected_mac` for this client from its
/// key and address, at `now_secs`.
pub open spec fn token_verdict(
    token: Seq<u8>,
    request_protocol: u64,
    request_client: u64,
    server_protocol: u64,
    expected_mac: Seq<u8>,
    now_secs: u64,
) -> TokenCheck {
    if token.len() < 24 {
        TokenCheck::Malformed
    } else if request_protocol != server_protocol || le_value(token.subrange(8, 16))
        != server_protocol {
        TokenCheck::WrongProtocol
    } else if le_value(token.subrange(0, 8)) != request_client {
        TokenCheck::WrongClient
    } else if now_secs >= le_value(token.subrange(16, 24)) {
        TokenCheck::Expired
    } else if token.subrange(24, token.len() as int) != expected_mac {
        TokenCheck::BadMac
    } else {
        TokenCheck::Accepted
    }
}

/// Compares `a[a_start..]` with all of `b` without stopping at the first
/// difference, so that the time taken does not depend on where they differ.
pub fn ct_eq_from(a: &[u8], a_start: usize, b: &[u8]) -> (r: bool)
    requires
        a_start <= a@.len(),
    ensures
        r == (a@.subrange(a_start as int, a@.len() as int) == b@),
{
    let alen = a.len();
    if alen - a_start != b.len() {
        proof {
            assert(a@.subrange(a_start as int, a@.len() as int).len() != b@.len());
        }
        return false;
    }
    let mut diff: u8 = 0;
    let mut i: usize = 0;
    while i < b.len()
        invariant
            alen == a@.len(),
            alen - a_start == b@.len(),
            a_start <= alen,
            i <= b@.len(),
            (diff == 0) == (forall|k: int| 0 <= k < i ==> a@[a_start + k] == b@[k]),
        decreases b@.len() - i,
    {
        let x = a[a_start + i];
        let y = b[i];
        let d2: u8 = diff | (x ^ y);
        assert((d2 == 0) == (diff == 0 && x == y)) by (bit_vector)
            requires d2 == diff | (x ^ y);
        proof {
            if d2 == 0 {
                assert forall|k: int| 0 <= k < i + 1 implies a@[a_start + k] == b@[k] by {
                    if k == i {
                    }
                }
            }
        }
        diff = d2;
        i = i + 1;
    }
    let r = diff == 0;
    proof {
        let sa = a@.subrange(a_start as int, a@.len() as int);
        if r {
            assert(sa =~= b@);
        } else {
            let k = choose|k: int| 0 <= k < i && a@[a_start + k] != b@[k];
            assert(sa[k] != b@[k]);
        }
    }
    r
}

/// Checks a connect token as `token_verdict` describes. The MAC is compared
/// in constant time.
pub fn check_token(
    token: &[u8],
    request_protocol: u64,
    request_client: u64,
    server_protocol: u64,
    expected_mac: &[u8],
    now_secs: u64,
) -> (r: TokenCheck)
    ensures
        r == token_verdict(token@, request_protocol, request_client, server_protocol, expected_mac@, now_secs),
{
    if token.len() < TOKEN_FIELDS_LEN {
        return TokenCheck::Malformed;
    }
    proof {
        lemma_pow256_values();
        lemma_le_value_bound(token@.subrange(0, 8));
        lemma_le_value_bound(token@.subrange(8, 16));
        lemma_le_value_bound(token@.subrange(16, 24));
    }
    let client = read_le(token, 0, 8);
    let protocol = read_le(token, 8, 8);
    let expires = read_le(token, 16, 8);
    match (client, protocol, expires) {
        (Some(client), Some(protocol), Some(expires)) => {
            if request_protocol != server_protocol || protocol != server_protocol {
                TokenCheck::WrongProtocol
            } else if client != request_client {
                TokenCheck::WrongClient
            } else if now_secs >= expires {
                TokenCheck::Expired
            } else if !ct_eq_from(token, TOKEN_FIELDS_LEN, expected_mac) {
                TokenCheck::BadMac
            } else {
                TokenCheck::Accepted
            }
        },
        _ => TokenCheck::Malformed,
    }
}

/// A token is accepted only under the server's protocol id, for the client
/// that presents it, before it expires, and with the MAC the server derives
/// from its own key: a token made for another protocol id or with another
/// key is refused.
pub proof fn lemma_token_accepted_only_if_bound(
    token: Seq<u8>,
    request_protocol: u64,
    request_client: u64,
    server_protocol: u64,
    expected_mac: Seq<u8>,
    now_secs: u64,
)
    ensures
        token_verdict(token, request_protocol, request_client, server_protocol, expected_mac, now_secs)
            == TokenCheck::Accepted ==> {
            &&& token.len() >= 24
            &&& request_protocol == server_protocol
            &&& le_value(token.subrange(8, 16)) == server_protocol
            &&& le_value(token.subrange(0, 8)) == request_client
            &&& now_secs < le_value(token.subrange(16, 24))
            &&& token.subrange(24, token.len() as int) == expected_mac
        },
{
}

} // verus!
