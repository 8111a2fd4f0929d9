//! Payloads carried in channel frames: the input frame (newest tick, window
//! size, then the action states newest first, each of a fixed size) and the
//! acknowledgement frame (per replication group, the newest tick seen).
use vstd::prelude::*;
use crate::bytes::{le_bytes, le_value, push_le, read_le, lemma_le_bytes_len, lemma_le_round_trip, lemma_pow256_values, lemma_le_value_bound};

verus! {

/// The states laid end to end.
pub open spec fn concat(states: Seq<Seq<u8>>) -> Seq<u8>
    decreases states.len(),
{
    if states.len() == 0 {
        Seq::empty()
    } else {
        concat(states.drop_last()) + states.last()
    }
}

pub open spec fn all_len(states: Seq<Seq<u8>>, n: nat) -> bool {
    forall|i: int| 0 <= i < states.len() ==> (#[trigger] states[i]).len() == n
}

pub open spec fn input_frame_bytes(newest: u16, states: Seq<Seq<u8>>) -> Seq<u8> {
    le_bytes(newest as nat, 2) + seq![states.len() as u8] + concat(states)
}

/// The input frame that `s` holds exactly, for states of `state_len` bytes.
pub open spec fn parse_input_frame(s: Seq<u8>, state_len: nat) -> Option<(u16, Seq<Seq<u8>>)> {
    if s.len() < 3 {
        None
    } else {
        let w = s[2] as int;
        if s.len() != 3 + w * state_len {
            None
        } else {
            Some(
                (
                    le_value(s.subrange(0, 2)) as u16,
                    Seq::new(w as nat, |i: int| s.subrange(3 + i * state_len, 3 + (i + 1) * state_len)),
                ),
            )
        }
    }
}

proof fn lemma_concat_len(states: Seq<Seq<u8>>, n: nat)
    requires
        all_len(states, n),
    ensures
        concat(states).len() == states.len() * n,
    decreases states.len(),
{
    if states.len() > 0 {
        lemma_concat_len(states.drop_last(), n);
        assert((states.len() - 1) * n + n == states.len() * n) by (nonlinear_arith);
    }
}

proof fn lemma_concat_chunk(states: Seq<Seq<u8>>, n: nat, i: int)
    requires
        all_len(states, n),
        0 <= i < states.len(),
    ensures
        concat(states).subrange(i * n, (i + 1) * n) == states[i],
    decreases states.len(),
{
    lemma_concat_len(states.drop_last(), n);
    let k = states.len() - 1;
    assert(all_len(states.drop_last(), n));
    if i == k {
        assert((k + 1) * n == k * n + n) by (nonlinear_arith);
        assert(concat(states).subrange(i * n, (i + 1) * n) =~= states[i]);
    } else {
        lemma_concat_chunk(states.drop_last(), n, i);
        let a = i * n;
        let b = (i + 1) * n;
        assert(b == a + n) by (nonlinear_arith)
            requires a == i * n, b == (i + 1) * n;
        assert(b <= k * n) by (nonlinear_arith)
            requires i + 1 <= k, n >= 0, b == (i + 1) * n;
        assert(0 <= a) by (nonlinear_arith)
            requires i >= 0, n >= 0, a == i * n;
        let p = concat(states.drop_last());
        assert(p.len() == k * n);
        assert(concat(states) == p + states.last());
        assert(concat(states).subrange(a, b) =~= p.subrange(a, b));
    }
}

/// Encodes an input frame: `states[i]` is the state of tick `newest - i`.
pub fn encode_input_frame(newest: u16, states: &Vec<Vec<u8>>) -> (r: Vec<u8>)
    requires
        states@.len() <= 255,
    ensures
        r@ == input_frame_bytes(newest, states@.map_values(|v: Vec<u8>| v@)),
{
    let ghost sv = states@.map_values(|v: Vec<u8>| v@);
    let mut out: Vec<u8> = Vec::new();
    push_le(&mut out, newest as u64, 2);
    out.push(states.len() as u8);
    let ghost head = out@;
    let mut i: usize = 0;
    assert(sv.take(0) =~= Seq::<Seq<u8>>::empty());
    while i < states.len()
        invariant
            i <= states@.len(),
            sv == states@.map_values(|v: Vec<u8>| v@),
            out@ == head + concat(sv.take(i as int)),
        decreases states@.len() - i,
    {
        let mut j: usize = 0;
        let ghost mid = out@;
        while j < states[i].len()
            invariant
                i < states@.len(),
                j <= states@[i as int]@.len(),
                out@ == mid + states@[i as int]@.take(j as int),
            decreases states@[i as int]@.len() - j,
        {
            out.push(states[i][j]);
            assert(states@[i as int]@.take(j + 1) =~= states@[i as int]@.take(j as int).push(states@[i as int]@[j as int]));
            j = j + 1;
        }
        assert(states@[i as int]@.take(j as int) =~= states@[i as int]@);
        assert(sv.take(i + 1).drop_last() =~= sv.take(i as int));
        assert(out@ =~= head + concat(sv.take(i + 1)));
        i = i + 1;
    }
    assert(sv.take(i as int) =~= sv);
    assert(out@ =~= input_frame_bytes(newest, sv));
    out
}

/// Decodes an input frame whose states are `state_len` bytes each.
pub fn decode_input_frame(buf: &[u8], state_len: usize) -> (r: Option<(u16, Vec<Vec<u8>>)>)
    requires
        state_len <= 65535,
    ensures
        match r {
            None => parse_input_frame(buf@, state_len as nat) is None,
            Some((t, v)) => parse_input_frame(buf@, state_len as nat) == Some(
                (t, v@.map_values(|x: Vec<u8>| x@)),
            ),
        },
{
    let len = buf.len();
    if len < 3 {
        return None;
    }
    let w = buf[2] as usize;
    assert(w * state_len <= 255 * 65535) by (nonlinear_arith)
        requires w <= 255, state_len <= 65535;
    if len - 3 != w * state_len {
        return None;
    }
    let newest = match read_le(buf, 0, 2) {
        Some(n) => n,
        None => return None,
    };
    proof {
        lemma_pow256_values();
        lemma_le_value_bound(buf@.subrange(0, 2));
    }
    let ghost want = Seq::new(w as nat, |i: int| buf@.subrange(3 + i * state_len, 3 + (i + 1) * state_len));
    let mut states: Vec<Vec<u8>> = Vec::new();
    let mut i: usize = 0;
    while i < w
        invariant
            i <= w <= 255,
            len == buf@.len(),
            len == 3 + w * state_len,
            state_len <= 65535,
            want == Seq::new(w as nat, |i: int| buf@.subrange(3 + i * state_len, 3 + (i + 1) * state_len)),
            states@.map_values(|x: Vec<u8>| x@) =~= want.take(i as int),
        decreases w - i,
    {
        assert(3 + (i + 1) * state_len <= 3 + w * state_len) by (nonlinear_arith)
            requires i + 1 <= w;
        assert(i * state_len + state_len == (i + 1) * state_len) by (nonlinear_arith);
        assert(0 <= i * state_len) by (nonlinear_arith)
            requires i >= 0, state_len >= 0;
        let start = 3 + i * state_len;
        let chunk = crate::wire::copy_range(buf, start, start + state_len);
        let ghost s0 = states@;
        states.push(chunk);
        assert(states@.map_values(|x: Vec<u8>| x@) =~= s0.map_values(|x: Vec<u8>| x@).push(chunk@));
        assert(want.take(i + 1) =~= want.take(i as int).push(want[i as int]));
        i = i + 1;
    }
    assert(want.take(i as int) =~= want);
    Some((newest as u16, states))
}

/// An input frame decodes to the tick and states it was made from.
pub proof fn lemma_input_frame_round_trip(newest: u16, states: Seq<Seq<u8>>, state_len: nat)
    requires
        states.len() <= 255,
        all_len(states, state_len),
    ensures
        parse_input_frame(input_frame_bytes(newest, states), state_len) == Some((newest, states)),
{
    lemma_pow256_values();
    lemma_le_bytes_len(newest as nat, 2);
    lemma_le_round_trip(newest as nat, 2);
    lemma_concat_len(states, state_len);
    let s = input_frame_bytes(newest, states);
    assert(s.subrange(0, 2) =~= le_bytes(newest as nat, 2));
    assert(s[2] == states.len() as u8);
    assert(states.len() * state_len == state_len * states.len()) by (nonlinear_arith);
    let got = Seq::new(states.len(), |i: int| s.subrange(3 + i * state_len, 3 + (i + 1) * state_len));
    assert forall|i: int| 0 <= i < states.len() implies #[trigger] got[i] == states[i] by {
        lemma_concat_chunk(states, state_len, i);
        let a = i * state_len;
        let b = (i + 1) * state_len;
        assert(b == a + state_len) by (nonlinear_arith)
            requires a == i * state_len, b == (i + 1) * state_len;
        assert(0 <= a) by (nonlinear_arith)
            requires i >= 0, a == i * state_len;
        assert(b <= states.len() * state_len) by (nonlinear_arith)
            requires i + 1 <= states.len(), b == (i + 1) * state_len;
        let c = concat(states);
        assert(s == le_bytes(newest as nat, 2) + seq![states.len() as u8] + c);
        assert(s.subrange(3 + a, 3 + b) =~= c.subrange(a, b));
    }
    assert(got =~= states);
}

pub open spec fn ack_bytes(acks: Seq<(u16, u16)>) -> Seq<u8>
    decreases acks.len(),
{
    if acks.len() == 0 {
        Seq::empty()
    } else {
        ack_bytes(acks.drop_last()) + le_bytes(acks.last().0 as nat, 2) + le_bytes(acks.last().1 as nat, 2)
    }
}

/// The acknowledgement records that `s` holds exactly: four bytes each.
pub open spec fn parse_acks(s: Seq<u8>) -> Option<Seq<(u16, u16)>> {
    if s.len() % 4 != 0 {
        None
    } else {
        Some(
            Seq::new(
                s.len() / 4,
                |i: int| (le_value(s.subrange(4 * i, 4 * i + 2)) as u16, le_value(s.subrange(4 * i + 2, 4 * i + 4)) as u16),
            ),
        )
    }
}

proof fn lemma_ack_bytes_len(acks: Seq<(u16, u16)>)
    ensures
        ack_bytes(acks).len() == 4 * acks.len(),
    decreases acks.len(),
{
    if acks.len() > 0 {
        lemma_ack_bytes_len(acks.drop_last());
        lemma_le_bytes_len(acks.last().0 as nat, 2);
        lemma_le_bytes_len(acks.last().1 as nat, 2);
    }
}

/// Encodes acknowledgements: per replication group, the newest tick seen.
pub fn encode_acks(acks: &Vec<(u16, u16)>) -> (r: Vec<u8>)
    ensures
        r@ == ack_bytes(acks@),
{
    let mut out: Vec<u8> = Vec::new();
    let mut i: usize = 0;
    while i < acks.len()
        invariant
            i <= acks@.len(),
            out@ == ack_bytes(acks@.take(i as int)),
        decreases acks@.len() - i,
    {
        let (g, t) = acks[i];
        push_le(&mut out, g as u64, 2);
        push_le(&mut out, t as u64, 2);
        assert(acks@.take(i + 1).drop_last() =~= acks@.take(i as int));
        i = i + 1;
    }
    assert(acks@.take(i as int) =~= acks@);
    out
}

/// Decodes acknowledgements.
pub fn decode_acks(buf: &[u8]) -> (r: Option<Vec<(u16, u16)>>)
    ensures
        match r {
            None => parse_acks(buf@) is None,
            Some(v) => parse_acks(buf@) == Some(v@),
        },
{
    let len = buf.len();
    if len % 4 != 0 {
        return None;
    }
    let n = len / 4;
    let ghost want = parse_acks(buf@)->Some_0;
    let mut out: Vec<(u16, u16)> = Vec::new();
    let mut i: usize = 0;
    proof {
        lemma_pow256_values();
    }
    while i < n
        invariant
            i <= n,
            n == len / 4,
            len == buf@.len(),
            len % 4 == 0,
            want == parse_acks(buf@)->Some_0,
            parse_acks(buf@) is Some,
            out@ =~= want.take(i as int),
            crate::bytes::pow256(2) == 65536,
        decreases n - i,
    {
        assert(4 * i + 4 <= len);
        let g = read_le(buf, 4 * i, 2);
        let t = read_le(buf, 4 * i + 2, 2);
        match (g, t) {
            (Some(g), Some(t)) => {
                proof {
                    lemma_le_value_bound(buf@.subrange(4 * i, 4 * i + 2));
                    lemma_le_value_bound(buf@.subrange(4 * i + 2, 4 * i + 4));
                }
                out.push((g as u16, t as u16));
                assert(want.take(i + 1) =~= want.take(i as int).push(want[i as int]));
            },
            _ => {
                return None;
            },
        }
        i = i + 1;
    }
    assert(want.take(i as int) =~= want);
    Some(out)
}

/// Acknowledgements decode to the records they were made from.
pub proof fn lemma_acks_round_trip(acks: Seq<(u16, u16)>)
    ensures
        parse_acks(ack_bytes(acks)) == Some(acks),
    decreases acks.len(),
{
    lemma_pow256_values();
    lemma_ack_bytes_len(acks);
    let s = ack_bytes(acks);
    if acks.len() > 0 {
        let k = acks.len() - 1;
        let prev = acks.drop_last();
        lemma_acks_round_trip(prev);
        lemma_ack_bytes_len(prev);
        let p = ack_bytes(prev);
        let last = acks.last();
        lemma_le_bytes_len(last.0 as nat, 2);
        lemma_le_bytes_len(last.1 as nat, 2);
        lemma_le_round_trip(last.0 as nat, 2);
        lemma_le_round_trip(last.1 as nat, 2);
        let got = parse_acks(s)->Some_0;
        assert forall|i: int| 0 <= i < acks.len() implies #[trigger] got[i] == acks[i] by {
            if i < k {
                assert(s.subrange(4 * i, 4 * i + 2) =~= p.subrange(4 * i, 4 * i + 2));
                assert(s.subrange(4 * i + 2, 4 * i + 4) =~= p.subrange(4 * i + 2, 4 * i + 4));
                assert(parse_acks(p)->Some_0[i] == prev[i]);
            } else {
                assert(s.subrange(4 * i, 4 * i + 2) =~= le_bytes(last.0 as nat, 2));
                assert(s.subrange(4 * i + 2, 4 * i + 4) =~= le_bytes(last.1 as nat, 2));
            }
        }
        assert(got =~= acks);
    } else {
        assert(parse_acks(s)->Some_0 =~= acks);
    }
}

} // verus!
