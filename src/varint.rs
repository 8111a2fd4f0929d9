//! Unsigned LEB128 varints: seven bits per byte, least significant first,
//! the high bit set on every byte but the last. Values below 2^56 are
//! handled, in at most eight bytes.
use vstd::prelude::*;

verus! {

/// Largest number of bytes a varint may take here.
pub const MAX_VARINT_LEN: usize = 8;

/// Values below this bound are encoded.
pub const VARINT_LIMIT: u64 = 0x100_0000_0000_0000;

pub open spec fn varint_bytes(x: nat) -> Seq<u8>
    decreases x,
{
    if x < 128 {
        seq![x as u8]
    } else {
        seq![(x % 128 + 128) as u8] + varint_bytes(x / 128)
    }
}

/// The varint at the front of `s` and the bytes it takes, reading at most
/// `budget` bytes.
pub open spec fn parse_varint(s: Seq<u8>, budget: nat) -> Option<(nat, nat)>
    decreases budget,
{
    if budget == 0 || s.len() == 0 {
        None
    } else if s[0] < 128 {
        Some((s[0] as nat, 1))
    } else {
        match parse_varint(s.drop_first(), (budget - 1) as nat) {
            None => None,
            Some((v, n)) => Some((((s[0] - 128) + 128 * v) as nat, n + 1)),
        }
    }
}

pub open spec fn pow128(k: nat) -> nat
    decreases k,
{
    if k == 0 { 1 } else { 128 * pow128((k - 1) as nat) }
}

pub proof fn lemma_varint_len(x: nat, k: nat)
    requires
        x < pow128(k),
    ensures
        1 <= varint_bytes(x).len() <= if k == 0 { 1 } else { k },
    decreases x,
{
    if x >= 128 {
        assert(k >= 2) by {
            if k == 0 {
            } else if k == 1 {
                assert(pow128(0) == 1);
            }
        }
        assert(x / 128 < pow128((k - 1) as nat)) by (nonlinear_arith)
            requires x < 128 * pow128((k - 1) as nat);
        lemma_varint_len(x / 128, (k - 1) as nat);
    }
}

/// A varint decodes to the value it was made from, whatever follows it.
pub proof fn lemma_varint_round_trip(x: nat, rest: Seq<u8>, budget: nat)
    requires
        varint_bytes(x).len() <= budget,
    ensures
        parse_varint(varint_bytes(x) + rest, budget) == Some((x, varint_bytes(x).len())),
    decreases x,
{
    let s = varint_bytes(x) + rest;
    if x >= 128 {
        lemma_varint_round_trip(x / 128, rest, (budget - 1) as nat);
        assert(s.drop_first() =~= varint_bytes(x / 128) + rest);
        assert(x == x % 128 + 128 * (x / 128)) by (nonlinear_arith);
    }
}

proof fn lemma_pow128_56()
    ensures
        pow128(8) == 0x100_0000_0000_0000,
{
    reveal_with_fuel(pow128, 9);
}

/// A decoded varint takes between one and `budget` bytes of `s`.
pub proof fn lemma_parse_varint_bound(s: Seq<u8>, budget: nat)
    ensures
        parse_varint(s, budget) matches Some((v, n)) ==> 1 <= n <= budget && n <= s.len() && v < pow128(n),
    decreases budget,
{
    reveal_with_fuel(pow128, 2);
    if budget > 0 && s.len() > 0 && s[0] >= 128 {
        lemma_parse_varint_bound(s.drop_first(), (budget - 1) as nat);
        if let Some((v, n)) = parse_varint(s.drop_first(), (budget - 1) as nat) {
            assert((s[0] - 128) + 128 * v < 128 * pow128(n)) by (nonlinear_arith)
                requires v < pow128(n), s[0] - 128 < 128, s[0] >= 128;
            assert(pow128(n + 1) == 128 * pow128(n));
        }
    }
}

/// Appends the varint of `x`.
pub fn push_varint(out: &mut Vec<u8>, x: u64)
    ensures
        final(out)@ == old(out)@ + varint_bytes(x as nat),
    decreases x,
{
    if x < 128 {
        out.push(x as u8);
    } else {
        out.push((x % 128 + 128) as u8);
        let ghost mid = out@;
        push_varint(out, x / 128);
        assert(out@ =~= old(out)@ + varint_bytes(x as nat));
    }
}

proof fn lemma_parse_varint_none(s: Seq<u8>, budget: nat)
    requires
        forall|j: int| 0 <= j < s.len() && j < budget ==> s[j] >= 128,
    ensures
        parse_varint(s, budget) is None,
    decreases budget,
{
    if budget > 0 && s.len() > 0 {
        lemma_parse_varint_none(s.drop_first(), (budget - 1) as nat);
    }
}

/// Reads the varint at `pos`: its value and the bytes it takes, or `None`
/// when the buffer ends first or it runs past eight bytes.
pub fn read_varint(buf: &[u8], pos: usize) -> (r: Option<(u64, usize)>)
    requires
        pos <= buf@.len(),
    ensures
        match r {
            None => parse_varint(buf@.skip(pos as int), 8) is None,
            Some((v, n)) => parse_varint(buf@.skip(pos as int), 8) == Some((v as nat, n as nat)),
        },
{
    let len = buf.len();
    let ghost s = buf@.skip(pos as int);
    let mut e: usize = pos;
    while e < len && e - pos < MAX_VARINT_LEN && buf[e] >= 128
        invariant
            pos <= e <= len == buf@.len(),
            e - pos <= 8,
            s == buf@.skip(pos as int),
            forall|j: int| pos <= j < e ==> buf@[j] >= 128,
        decreases len - e,
    {
        e = e + 1;
    }
    if e == len || e - pos == MAX_VARINT_LEN {
        proof {
            assert forall|j: int| 0 <= j < s.len() && j < 8 implies s[j] >= 128 by {
                assert(s[j] == buf@[pos + j]);
            }
            lemma_parse_varint_none(s, 8);
        }
        return None;
    }
    let mut acc: u64 = buf[e] as u64;
    let mut k: usize = e;
    proof {
        lemma_pow128_56();
        assert(buf@.skip(e as int)[0] == buf@[e as int]);
    }
    while k > pos
        invariant
            pos <= k <= e < len == buf@.len(),
            e - pos < 8,
            s == buf@.skip(pos as int),
            forall|j: int| pos <= j < e ==> buf@[j] >= 128,
            buf@[e as int] < 128,
            parse_varint(buf@.skip(k as int), (8 - (k - pos)) as nat) == Some((acc as nat, (e - k + 1) as nat)),
            pow128(8) == 0x100_0000_0000_0000,
        decreases k - pos,
    {
        let ghost t = buf@.skip(k - 1);
        assert(t.drop_first() =~= buf@.skip(k as int));
        proof {
            lemma_parse_varint_bound(buf@.skip(k as int), (8 - (k - pos)) as nat);
            lemma_pow_mono128((e - k + 1) as nat, 7);
        }
        let b = buf[k - 1];
        assert(t[0] == b);
        assert((b - 128) + 128 * (acc as int) < 0x100_0000_0000_0000) by (nonlinear_arith)
            requires
                acc < pow128(7),
                b >= 128,
                b < 256,
                pow128(8) == 128 * pow128(7),
                pow128(8) == 0x100_0000_0000_0000;
        acc = (b - 128) as u64 + 128 * acc;
        k = k - 1;
    }
    Some((acc, e - pos + 1))
}

pub proof fn lemma_pow_mono128(a: nat, b: nat)
    requires
        a <= b,
    ensures
        pow128(a) <= pow128(b),
    decreases b,
{
    if a < b {
        lemma_pow_mono128(a, (b - 1) as nat);
    }
}

} // verus!
