//! Transport acknowledgements: the receiver folds each arriving sequence
//! into the newest sequence seen and a 32-bit field with one bit per earlier
//! sequence; every outgoing header carries both, and the sender reads back
//! from them which of its datagrams arrived.
use vstd::prelude::*;
use crate::tick::{sub_ticks, tick_diff};

verus! {

/// Whether bit `k` of `bits` is set.
pub open spec fn bit_set(bits: u32, k: u32) -> bool {
    (bits >> k) & 1 == 1
}

/// Whether the header fields `ack` and `bits` acknowledge sequence `seq`:
/// it is `ack` itself, or lies `d` behind it for `d` in 1..=32 with bit
/// `d - 1` set.
pub open spec fn acknowledges(ack: u16, bits: u32, seq: u16) -> bool {
    let d = tick_diff(ack, seq);
    d == 0 || (1 <= d <= 32 && bit_set(bits, (d - 1) as u32))
}

/// Checks `acknowledges`.
pub fn is_acked(ack: u16, bits: u32, seq: u16) -> (r: bool)
    ensures
        r == acknowledges(ack, bits, seq),
{
    let d = sub_ticks(ack, seq);
    if d == 0 {
        true
    } else if d >= 1 && d <= 32 {
        let k: u32 = (d - 1) as u32;
        (bits >> k) & 1 == 1
    } else {
        false
    }
}

/// Receive side of the transport sequence.
pub struct AckTracker {
    pub latest: Option<u16>,
    pub bits: u32,
}

impl AckTracker {
    pub fn new() -> (r: AckTracker)
        ensures
            r.latest is None,
            r.bits == 0,
    {
        AckTracker { latest: None, bits: 0 }
    }

    /// Header fields to send: the newest sequence received and the field of
    /// earlier ones, or `None` before anything arrived.
    pub fn header_fields(&self) -> (r: Option<(u16, u32)>)
        ensures
            r == (match self.latest {
                None => None,
                Some(l) => Some((l, self.bits)),
            }),
    {
        match self.latest {
            None => None,
            Some(l) => Some((l, self.bits)),
        }
    }

    /// Datagram `seq` arrived. A newer one becomes the newest and shifts the
    /// field; an older one within 32 sets its bit.
    pub fn on_receive(&mut self, seq: u16)
        ensures
            final(self).latest is Some,
            (old(self).latest is None || tick_diff(seq, old(self).latest->Some_0) >= -32) ==> acknowledges(
                final(self).latest->Some_0,
                final(self).bits,
                seq,
            ),
            old(self).latest matches Some(l) ==> forall|s: u16|
                #![auto]
                acknowledges(l, old(self).bits, s) && 0 <= tick_diff(final(self).latest->Some_0, s) <= 32
                    ==> acknowledges(final(self).latest->Some_0, final(self).bits, s),
            old(self).latest matches Some(l) ==> tick_diff(final(self).latest->Some_0, l) >= 0,
            forall|s: u16|
                #![auto]
                acknowledges(final(self).latest->Some_0, final(self).bits, s) ==> s == seq || (old(
                    self,
                ).latest matches Some(l) && acknowledges(l, old(self).bits, s)),
    {
        match self.latest {
            None => {
                self.latest = Some(seq);
                self.bits = 0;
                assert(tick_diff(seq, seq) == 0) by {
                    vstd::arithmetic::div_mod::lemma_small_mod(0, 65536);
                }
                assert(acknowledges(seq, 0, seq));
                assert forall|s: u16| #![auto] acknowledges(seq, 0, s) implies s == seq by {
                    let t = tick_diff(seq, s);
                    if t == 0 {
                        crate::tick::lemma_tick_diff_zero(seq, s);
                    } else {
                        let j = (t - 1) as u32;
                        assert(!bit_set(0u32, j)) by (bit_vector);
                    }
                }
            },
            Some(l) => {
                let d = sub_ticks(seq, l);
                if d == 0 {
                    proof {
                        crate::tick::lemma_tick_offset_diff(seq, l);
                        assert(tick_diff(l, seq) == 0) by {
                            vstd::arithmetic::div_mod::lemma_small_mod(0, 65536);
                        }
                    }
                }
                if d > 0 {
                    let old_bits = self.bits;
                    let du: u32 = d as u32;
                    let nb: u32 = if du > 32 {
                        0
                    } else if du == 32 {
                        0x8000_0000
                    } else {
                        (old_bits << du) | (1u32 << (du - 1))
                    };
                    self.latest = Some(seq);
                    self.bits = nb;
                    proof {
                        assert forall|s: u16|
                            #![auto]
                            acknowledges(l, old_bits, s) && 0 <= tick_diff(seq, s) <= 32 implies acknowledges(seq, nb, s) by {
                            lemma_shift_keeps(l, seq, old_bits, nb, du, s);
                        }
                        crate::tick::lemma_tick_diff_antisymmetric(seq, l);
                        lemma_shift_marks_previous(l, seq, old_bits, nb, du);
                        assert forall|s: u16| #![auto] acknowledges(seq, nb, s) implies s == seq || acknowledges(l, old_bits, s) by {
                            lemma_shift_only(l, seq, old_bits, nb, du, s);
                        }
                    }
                } else if d < 0 && d >= -32 {
                    let k: u32 = (-d - 1) as u32;
                    let old_bits = self.bits;
                    let nb: u32 = old_bits | (1u32 << k);
                    self.bits = nb;
                    proof {
                        assert(bit_set(nb, k)) by (bit_vector)
                            requires nb == old_bits | (1u32 << k), k < 32;
                        crate::tick::lemma_tick_diff_antisymmetric(seq, l);
                        assert forall|s: u16| #![auto] acknowledges(l, nb, s) implies s == seq || acknowledges(l, old_bits, s) by {
                            let t = tick_diff(l, s);
                            if 1 <= t <= 32 && t != -d {
                                let j = (t - 1) as u32;
                                assert(bit_set(nb, j) ==> bit_set(old_bits, j)) by (bit_vector)
                                    requires nb == old_bits | (1u32 << k), k < 32, j < 32, j != k;
                            } else if t == -d {
                                crate::tick::lemma_tick_diff_antisymmetric(l, s);
                                crate::tick::lemma_tick_offset_diff(s, l);
                                crate::tick::lemma_tick_offset_diff(seq, l);
                            }
                        }
                        assert forall|s: u16|
                            #![auto]
                            acknowledges(l, old_bits, s) implies acknowledges(l, nb, s) by {
                            let dd = tick_diff(l, s);
                            if 1 <= dd <= 32 {
                                let j = (dd - 1) as u32;
                                assert(bit_set(old_bits, j) ==> bit_set(nb, j)) by (bit_vector)
                                    requires nb == old_bits | (1u32 << k), k < 32, j < 32;
                            }
                        }
                    }
                }
            },
        }
    }
}

proof fn lemma_diff_shift(l: u16, seq: u16, s: u16)
    requires
        1 <= tick_diff(seq, l),
        0 <= tick_diff(l, s) <= 32,
    ensures
        tick_diff(seq, s) == if tick_diff(seq, l) + tick_diff(l, s) < 32768 {
            tick_diff(seq, l) + tick_diff(l, s)
        } else {
            tick_diff(seq, l) + tick_diff(l, s) - 65536
        },
{
    let du = tick_diff(seq, l);
    let e = tick_diff(l, s);
    crate::tick::lemma_tick_offset_diff(seq, l);
    crate::tick::lemma_tick_diff_antisymmetric(l, s);
    crate::tick::lemma_tick_offset_diff(s, l);
    // seq == (l + du) % 65536 and s == (l - e) % 65536
    let big = l as int + 65536;
    vstd::arithmetic::div_mod::lemma_mod_add_multiples_vanish(l as int - e, 65536);
    assert(s as int == (big - e) % 65536);
    assert(seq as int == (l as int + du) % 65536);
    if du + e < 32768 {
        vstd::arithmetic::div_mod::lemma_mod_add_multiples_vanish(l as int + du, 65536);
        assert(seq as int == (big + du) % 65536);
        crate::tick::lemma_tick_diff_unwrapped((big + du) as nat, (big - e) as nat);
    } else {
        let x = l as int + du;
        let y = big - e;
        assert(seq as int == x % 65536);
        assert(s as int == y % 65536);
        vstd::arithmetic::div_mod::lemma_sub_mod_noop(x, y, 65536);
        vstd::arithmetic::div_mod::lemma_mod_add_multiples_vanish(x - y, 65536);
        vstd::arithmetic::div_mod::lemma_small_mod((x - y + 65536) as nat, 65536);
        assert((seq as int - s as int) % 65536 == du + e);
    }
}

proof fn lemma_shift_keeps(l: u16, seq: u16, old_bits: u32, nb: u32, du: u32, s: u16)
    requires
        tick_diff(seq, l) == du,
        du >= 1,
        du > 32 ==> nb == 0,
        du == 32 ==> nb == 0x8000_0000,
        du < 32 ==> nb == (old_bits << du) | (1u32 << ((du - 1) as u32)),
        acknowledges(l, old_bits, s),
        0 <= tick_diff(seq, s) <= 32,
    ensures
        acknowledges(seq, nb, s),
{
    let e = tick_diff(l, s);
    assert(0 <= e <= 32);
    lemma_diff_shift(l, seq, s);
    let t = tick_diff(seq, s);
    assert(t == e + du);
    if e == 0 {
        let j = (du - 1) as u32;
        if du == 32 {
            assert(bit_set(0x8000_0000u32, 31u32)) by (bit_vector);
        } else {
            assert(bit_set(nb, j)) by (bit_vector)
                requires nb == (old_bits << du) | (1u32 << j), du < 32, j == du - 1;
        }
    } else {
        let i = (e - 1) as u32;
        let j = (t - 1) as u32;
        assert(du < 32);
        assert(bit_set(old_bits, i));
        assert(bit_set(nb, j)) by (bit_vector)
            requires
                nb == (old_bits << du) | (1u32 << ((du - 1) as u32)),
                du < 32,
                j == i + du,
                j < 32,
                (old_bits >> i) & 1 == 1;
    }
}

proof fn lemma_shift_only(l: u16, seq: u16, old_bits: u32, nb: u32, du: u32, s: u16)
    requires
        tick_diff(seq, l) == du,
        du >= 1,
        du > 32 ==> nb == 0,
        du == 32 ==> nb == 0x8000_0000,
        du < 32 ==> nb == (old_bits << du) | (1u32 << ((du - 1) as u32)),
        acknowledges(seq, nb, s),
    ensures
        s == seq || acknowledges(l, old_bits, s),
{
    let t = tick_diff(seq, s);
    if t == 0 {
        crate::tick::lemma_tick_diff_zero(seq, s);
    } else {
        let j = (t - 1) as u32;
        assert(bit_set(nb, j));
        crate::tick::lemma_tick_diff_antisymmetric(seq, l);
        if du > 32 {
            assert(!bit_set(0u32, j)) by (bit_vector);
        } else if du == 32 {
            assert(bit_set(0x8000_0000u32, j) ==> j == 31) by (bit_vector)
                requires j < 32;
            crate::tick::lemma_tick_diff_compose(l, seq, s);
            vstd::arithmetic::div_mod::lemma_small_mod(0, 65536);
        } else {
            assert(j == du - 1 || (j >= du && bit_set(old_bits, (j - du) as u32))) by (bit_vector)
                requires
                    nb == (old_bits << du) | (1u32 << ((du - 1) as u32)),
                    du < 32,
                    du >= 1,
                    j < 32,
                    (nb >> j) & 1 == 1;
            crate::tick::lemma_tick_diff_compose(l, seq, s);
            vstd::arithmetic::div_mod::lemma_small_mod(0, 65536);
        }
    }
}

proof fn lemma_shift_marks_previous(l: u16, seq: u16, old_bits: u32, nb: u32, du: u32)
    requires
        tick_diff(seq, l) == du,
        du >= 1,
        du > 32 ==> nb == 0,
        du == 32 ==> nb == 0x8000_0000,
        du < 32 ==> nb == (old_bits << du) | (1u32 << ((du - 1) as u32)),
    ensures
        acknowledges(seq, nb, seq),
{
}

} // verus!
