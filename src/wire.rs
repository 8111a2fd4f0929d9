//! Datagram layout: a fixed packet header followed by channel frames, each a
//! channel id, a two-byte length and the payload.
use vstd::prelude::*;
use crate::bytes::{le_bytes, le_value, push_le, read_le, lemma_le_bytes_len, lemma_le_round_trip, lemma_pow256_values, pow256};

verus! {

/// Bytes taken by the packet header.
pub const HEADER_LEN: usize = 10;

/// Largest payload a channel frame can carry.
pub const MAX_FRAME_PAYLOAD: usize = 65535;

/// Transport header: own sequence, latest acknowledged sequence, one bit per
/// earlier acknowledged sequence, and the sender's tick.
#[derive(Clone, Copy, Debug, PartialEq, Eq, Structural)]
pub struct PacketHeader {
    pub seq: u16,
    pub ack: u16,
    pub ack_bits: u32,
    pub send_tick: u16,
}

/// One channel frame of a datagram.
#[derive(Debug)]
pub struct Frame {
    pub channel_id: u8,
    pub payload: Vec<u8>,
}

pub struct FrameView {
    pub channel_id: u8,
    pub payload: Seq<u8>,
}

impl View for Frame {
    type V = FrameView;

    open spec fn view(&self) -> FrameView {
        FrameView { channel_id: self.channel_id, payload: self.payload@ }
    }
}

pub open spec fn header_bytes(h: PacketHeader) -> Seq<u8> {
    le_bytes(h.seq as nat, 2) + le_bytes(h.ack as nat, 2) + le_bytes(h.ack_bits as nat, 4)
        + le_bytes(h.send_tick as nat, 2)
}

/// The header at the front of `s`, if `s` is long enough to hold one.
pub open spec fn parse_header(s: Seq<u8>) -> Option<PacketHeader> {
    if s.len() < 10 {
        None
    } else {
        Some(
            PacketHeader {
                seq: le_value(s.subrange(0, 2)) as u16,
                ack: le_value(s.subrange(2, 4)) as u16,
                ack_bits: le_value(s.subrange(4, 8)) as u32,
                send_tick: le_value(s.subrange(8, 10)) as u16,
            },
        )
    }
}

pub open spec fn frame_bytes(f: FrameView) -> Seq<u8> {
    seq![f.channel_id] + le_bytes(f.payload.len(), 2) + f.payload
}

pub open spec fn frames_bytes(fs: Seq<FrameView>) -> Seq<u8>
    decreases fs.len(),
{
    if fs.len() == 0 {
        Seq::empty()
    } else {
        frame_bytes(fs[0]) + frames_bytes(fs.drop_first())
    }
}

/// The frames that `s` holds back to back, or `None` when a frame's
/// declared length runs past the end.
pub open spec fn parse_frames(s: Seq<u8>) -> Option<Seq<FrameView>>
    decreases s.len(),
{
    if s.len() == 0 {
        Some(Seq::empty())
    } else if s.len() < 3 {
        None
    } else {
        let n = le_value(s.subrange(1, 3)) as int;
        if 3 + n > s.len() {
            None
        } else {
            match parse_frames(s.subrange(3 + n, s.len() as int)) {
                None => None,
                Some(rest) => Some(
                    seq![FrameView { channel_id: s[0], payload: s.subrange(3, 3 + n) }] + rest,
                ),
            }
        }
    }
}

pub open spec fn frames_fit(fs: Seq<FrameView>) -> bool {
    forall|i: int| 0 <= i < fs.len() ==> fs[i].payload.len() <= 65535
}

/// A datagram: header, then frames on channels below `n_channels`.
/// Anything else is dropped whole.
pub open spec fn parse_datagram(s: Seq<u8>, n_channels: u8) -> Option<(PacketHeader, Seq<FrameView>)> {
    match parse_header(s) {
        None => None,
        Some(h) => match parse_frames(s.subrange(10, s.len() as int)) {
            None => None,
            Some(fs) => if forall|i: int| 0 <= i < fs.len() ==> fs[i].channel_id < n_channels {
                Some((h, fs))
            } else {
                None
            },
        },
    }
}

/// Appends the header's ten bytes to `out`.
pub fn write_header(out: &mut Vec<u8>, h: &PacketHeader)
    ensures
        final(out)@ == old(out)@ + header_bytes(*h),
{
    let ghost o = out@;
    push_le(out, h.seq as u64, 2);
    push_le(out, h.ack as u64, 2);
    push_le(out, h.ack_bits as u64, 4);
    push_le(out, h.send_tick as u64, 2);
    assert(out@ =~= o + header_bytes(*h));
}

/// Reads the header at the front of `buf`.
pub fn read_header(buf: &[u8]) -> (r: Option<PacketHeader>)
    ensures
        r == parse_header(buf@),
{
    if buf.len() < HEADER_LEN {
        return None;
    }
    let seq = read_le(buf, 0, 2);
    let ack = read_le(buf, 2, 2);
    let bits = read_le(buf, 4, 4);
    let tick = read_le(buf, 8, 2);
    match (seq, ack, bits, tick) {
        (Some(a), Some(b), Some(c), Some(d)) => {
            proof {
                lemma_pow256_values();
                crate::bytes::lemma_le_value_bound(buf@.subrange(0, 2));
                crate::bytes::lemma_le_value_bound(buf@.subrange(2, 4));
                crate::bytes::lemma_le_value_bound(buf@.subrange(4, 8));
                crate::bytes::lemma_le_value_bound(buf@.subrange(8, 10));
            }
            Some(PacketHeader { seq: a as u16, ack: b as u16, ack_bits: c as u32, send_tick: d as u16 })
        },
        _ => None,
    }
}

/// Appends one frame to `out`.
pub fn write_frame(out: &mut Vec<u8>, f: &Frame)
    requires
        f.payload@.len() <= 65535,
    ensures
        final(out)@ == old(out)@ + frame_bytes(f@),
{
    let ghost o = out@;
    out.push(f.channel_id);
    push_le(out, f.payload.len() as u64, 2);
    let mut i: usize = 0;
    let ghost mid = out@;
    while i < f.payload.len()
        invariant
            i <= f.payload@.len(),
            out@ == mid + f.payload@.subrange(0, i as int),
        decreases f.payload@.len() - i,
    {
        out.push(f.payload[i]);
        assert(f.payload@.subrange(0, i + 1) =~= f.payload@.subrange(0, i as int).push(f.payload@[i as int]));
        i = i + 1;
    }
    assert(f.payload@.subrange(0, i as int) =~= f.payload@);
    assert(out@ =~= o + frame_bytes(f@));
}

/// Encodes a whole datagram: the header, then each frame in order.
pub fn encode_datagram(h: &PacketHeader, frames: &Vec<Frame>) -> (r: Vec<u8>)
    requires
        forall|i: int| 0 <= i < frames@.len() ==> frames@[i].payload@.len() <= 65535,
    ensures
        r@ == header_bytes(*h) + frames_bytes(frames@.map_values(|f: Frame| f@)),
{
    let mut out: Vec<u8> = Vec::new();
    write_header(&mut out, h);
    let mut i: usize = 0;
    assert(frames@.subrange(0, frames@.len() as int) =~= frames@);
    assert(out@ =~= header_bytes(*h));
    while i < frames.len()
        invariant
            i <= frames@.len(),
            forall|k: int| 0 <= k < frames@.len() ==> frames@[k].payload@.len() <= 65535,
            out@ + frames_bytes(frames@.subrange(i as int, frames@.len() as int).map_values(
                |f: Frame| f@,
            )) == header_bytes(*h) + frames_bytes(frames@.map_values(|f: Frame| f@)),
        decreases frames@.len() - i,
    {
        let ghost rest = frames@.subrange(i as int, frames@.len() as int).map_values(|f: Frame| f@);
        let ghost rest2 = frames@.subrange(i + 1, frames@.len() as int).map_values(|f: Frame| f@);
        assert(rest.drop_first() =~= rest2);
        let ghost o = out@;
        write_frame(&mut out, &frames[i]);
        assert(out@ + frames_bytes(rest2) =~= o + frames_bytes(rest));
        i = i + 1;
    }
    assert(frames@.subrange(i as int, frames@.len() as int).map_values(|f: Frame| f@) =~= Seq::<FrameView>::empty());
    assert(out@ + Seq::<u8>::empty() =~= out@);
    out
}

/// Copies `buf[start..end]` into a new vector.
pub fn copy_range(buf: &[u8], start: usize, end: usize) -> (r: Vec<u8>)
    requires
        start <= end <= buf@.len(),
    ensures
        r@ == buf@.subrange(start as int, end as int),
{
    let mut out: Vec<u8> = Vec::new();
    let mut i: usize = start;
    while i < end
        invariant
            start <= i <= end <= buf@.len(),
            out@ == buf@.subrange(start as int, i as int),
        decreases end - i,
    {
        out.push(buf[i]);
        assert(buf@.subrange(start as int, i + 1) =~= buf@.subrange(start as int, i as int).push(buf@[i as int]));
        i = i + 1;
    }
    out
}

/// Decodes a datagram: its header and frames, or `None` when it is too
/// short, a frame is cut off, or a frame names a channel at or above
/// `n_channels`.
pub fn decode_datagram(buf: &[u8], n_channels: u8) -> (r: Option<(PacketHeader, Vec<Frame>)>)
    ensures
        match r {
            None => parse_datagram(buf@, n_channels) is None,
            Some((h, fs)) => parse_datagram(buf@, n_channels) == Some(
                (h, fs@.map_values(|f: Frame| f@)),
            ),
        },
{
    let h = match read_header(buf) {
        None => return None,
        Some(h) => h,
    };
    let len = buf.len();
    let ghost body = buf@.subrange(10, len as int);
    let mut frames: Vec<Frame> = Vec::new();
    let mut pos: usize = HEADER_LEN;
    let mut channels_ok: bool = true;
    proof {
        lemma_pow256_values();
    }
    while pos < len
        invariant
            10 <= pos <= len,
            len == buf@.len(),
            body == buf@.subrange(10, len as int),
            parse_frames(body) == match parse_frames(buf@.subrange(pos as int, len as int)) {
                None => None::<Seq<FrameView>>,
                Some(rest) => Some(frames@.map_values(|f: Frame| f@) + rest),
            },
            channels_ok == forall|i: int| 0 <= i < frames@.len() ==> frames@[i].channel_id < n_channels,
            pow256(2) == 65536,
        decreases len - pos,
    {
        let ghost s = buf@.subrange(pos as int, len as int);
        if len - pos < 3 {
            return None;
        }
        let n = match read_le(buf, pos + 1, 2) {
            None => return None,
            Some(n) => n,
        };
        assert(s.subrange(1, 3) =~= buf@.subrange(pos + 1, pos + 3));
        proof {
            crate::bytes::lemma_le_value_bound(buf@.subrange(pos + 1, pos + 3));
        }
        let n = n as usize;
        if n > len - pos - 3 {
            return None;
        }
        let payload = copy_range(buf, pos + 3, pos + 3 + n);
        let f = Frame { channel_id: buf[pos], payload };
        assert(s.subrange(3, 3 + n as int) =~= buf@.subrange(pos + 3, pos + 3 + n));
        assert(s.subrange(3 + n as int, s.len() as int) =~= buf@.subrange(pos + 3 + n, len as int));
        let ghost old_frames = frames@;
        if f.channel_id >= n_channels {
            channels_ok = false;
        }
        frames.push(f);
        assert(frames@.map_values(|f: Frame| f@) =~= old_frames.map_values(|f: Frame| f@).push(f@));
        assert(channels_ok == forall|i: int| 0 <= i < frames@.len() ==> frames@[i].channel_id < n_channels) by {
            if channels_ok {
                assert forall|i: int| 0 <= i < frames@.len() implies frames@[i].channel_id < n_channels by {
                    if i < old_frames.len() {
                        assert(frames@[i] == old_frames[i]);
                    }
                }
            } else {
                if frames@[frames@.len() - 1].channel_id >= n_channels {
                } else {
                    let j = choose|j: int| 0 <= j < old_frames.len() && !(old_frames[j].channel_id < n_channels);
                    assert(frames@[j] == old_frames[j]);
                }
            }
        }
        proof {
            let nxt = parse_frames(buf@.subrange(pos + 3 + n, len as int));
            if let Some(rest) = nxt {
                assert(old_frames.map_values(|f: Frame| f@) + (seq![f@] + rest) =~= frames@.map_values(|f: Frame| f@) + rest);
            }
        }
        pos = pos + 3 + n;
    }
    assert(buf@.subrange(pos as int, len as int) =~= Seq::<u8>::empty());
    assert(frames@.map_values(|f: Frame| f@) + Seq::<FrameView>::empty() =~= frames@.map_values(|f: Frame| f@));
    let ghost fv = frames@.map_values(|f: Frame| f@);
    assert(forall|i: int| 0 <= i < fv.len() ==> fv[i].channel_id == frames@[i].channel_id);
    if !channels_ok {
        proof {
            let j = choose|j: int| 0 <= j < frames@.len() && !(frames@[j].channel_id < n_channels);
            assert(!(fv[j].channel_id < n_channels));
        }
        return None;
    }
    Some((h, frames))
}

/// Decoding an encoded header gives the header back.
pub proof fn lemma_header_round_trip(h: PacketHeader, rest: Seq<u8>)
    ensures
        parse_header(header_bytes(h) + rest) == Some(h),
{
    lemma_pow256_values();
    let s = header_bytes(h) + rest;
    lemma_le_bytes_len(h.seq as nat, 2);
    lemma_le_bytes_len(h.ack as nat, 2);
    lemma_le_bytes_len(h.ack_bits as nat, 4);
    lemma_le_bytes_len(h.send_tick as nat, 2);
    lemma_le_round_trip(h.seq as nat, 2);
    lemma_le_round_trip(h.ack as nat, 2);
    lemma_le_round_trip(h.ack_bits as nat, 4);
    lemma_le_round_trip(h.send_tick as nat, 2);
    assert(s.subrange(0, 2) =~= le_bytes(h.seq as nat, 2));
    assert(s.subrange(2, 4) =~= le_bytes(h.ack as nat, 2));
    assert(s.subrange(4, 8) =~= le_bytes(h.ack_bits as nat, 4));
    assert(s.subrange(8, 10) =~= le_bytes(h.send_tick as nat, 2));
}

/// Decoding encoded frames gives the frames back.
pub proof fn lemma_frames_round_trip(fs: Seq<FrameView>)
    requires
        frames_fit(fs),
    ensures
        parse_frames(frames_bytes(fs)) == Some(fs),
    decreases fs.len(),
{
    if fs.len() > 0 {
        lemma_pow256_values();
        let f = fs[0];
        let s = frames_bytes(fs);
        let rest = frames_bytes(fs.drop_first());
        lemma_le_bytes_len(f.payload.len(), 2);
        lemma_le_round_trip(f.payload.len(), 2);
        assert(frames_fit(fs.drop_first()));
        lemma_frames_round_trip(fs.drop_first());
        let n = f.payload.len();
        assert(s.subrange(1, 3) =~= le_bytes(n, 2));
        assert(s.subrange(3, 3 + n as int) =~= f.payload);
        assert(s.subrange(3 + n as int, s.len() as int) =~= rest);
        assert(seq![f] + fs.drop_first() =~= fs);
    }
}

/// Decoding an encoded datagram on known channels gives back its header and
/// frames.
pub proof fn lemma_datagram_round_trip(h: PacketHeader, fs: Seq<FrameView>, n_channels: u8)
    requires
        frames_fit(fs),
        forall|i: int| 0 <= i < fs.len() ==> fs[i].channel_id < n_channels,
    ensures
        parse_datagram(header_bytes(h) + frames_bytes(fs), n_channels) == Some((h, fs)),
{
    let s = header_bytes(h) + frames_bytes(fs);
    lemma_header_round_trip(h, frames_bytes(fs));
    lemma_le_bytes_len(h.seq as nat, 2);
    lemma_le_bytes_len(h.ack as nat, 2);
    lemma_le_bytes_len(h.ack_bits as nat, 4);
    lemma_le_bytes_len(h.send_tick as nat, 2);
    assert(s.subrange(10, s.len() as int) =~= frames_bytes(fs));
    lemma_frames_round_trip(fs);
}

} // verus!
