//! Input pipeline: a ring of action states indexed by tick, kept on both
//! ends. The client sends each tick the last few states newest first; the
//! server files every state it has not yet simulated past and, when a tick's
//! state is missing, falls back to the newest one it has.
use vstd::prelude::*;
use crate::tick::{add_ticks, sub_ticks, tick_diff, tick_offset};

verus! {

/// Action states stored by tick in `capacity` slots; slot `t % capacity`
/// holds the state of tick `t` or of an older tick that shares the slot.
pub struct InputRing {
    pub slots: Vec<Option<(u16, Vec<u8>)>>,
    pub newest: Option<u16>,
}

/// Result of looking up the input for a tick on the server.
#[derive(Debug)]
pub enum InputLookup {
    /// The state received for that very tick.
    Exact(Vec<u8>),
    /// No state for that tick: the newest one received stands in, and the
    /// tick counts as starved.
    Starved(Vec<u8>),
    /// Nothing was ever received.
    Missing,
}

/// Whether the state `i` places back from `newest` is filed: its tick is
/// not before `current`.
pub open spec fn filed(newest: u16, i: int, current: u16) -> bool {
    tick_diff(tick_offset(newest, -i), current) >= 0
}

/// Whether no filed state among those `lo` to `hi` places back from
/// `newest` shares the slot of tick `u` in a ring of `cap` slots.
#[verifier::opaque]
pub open spec fn untouched_from(cap: nat, newest: u16, lo: int, hi: int, current: u16, u: u16) -> bool {
    forall|i: int|
        lo <= i < hi && #[trigger] filed(newest, i, current) ==> (tick_offset(newest, -i) as int) % (cap as int)
            != (u as int) % (cap as int)
}

proof fn lemma_untouched_step(cap: nat, newest: u16, k: int, n: int, current: u16, u: u16)
    requires
        0 <= k < n,
        untouched_from(cap, newest, k, n, current, u),
    ensures
        untouched_from(cap, newest, k + 1, n, current, u),
        filed(newest, k, current) ==> (tick_offset(newest, -k) as int) % (cap as int) != (u as int) % (cap as int),
{
    reveal(untouched_from);
}

/// Whether no filed state of a datagram of `n` states shares the slot of
/// tick `u`.
pub open spec fn untouched(cap: nat, newest: u16, n: int, current: u16, u: u16) -> bool {
    untouched_from(cap, newest, 0, n, current, u)
}

impl InputRing {
    pub open spec fn capacity(&self) -> nat {
        self.slots@.len()
    }

    pub open spec fn slot_of(&self, t: u16) -> int {
        (t as int) % (self.slots@.len() as int)
    }

    /// The state stored for tick `t`, if any.
    pub open spec fn get(&self, t: u16) -> Option<Seq<u8>> {
        match self.slots@[self.slot_of(t)] {
            Some((tt, v)) => if tt == t { Some(v@) } else { None },
            None => None,
        }
    }

    pub open spec fn wf(&self) -> bool {
        &&& 0 < self.slots@.len() <= 65536
        &&& 65536int % (self.slots@.len() as int) == 0
        &&& self.newest matches Some(n) ==> self.get(n) is Some
    }

    /// An empty ring of `capacity` slots.
    pub fn new(capacity: usize) -> (r: InputRing)
        requires
            0 < capacity <= 65536,
            65536int % (capacity as int) == 0,
        ensures
            r.wf(),
            r.capacity() == capacity,
            r.newest is None,
            forall|t: u16| r.get(t) is None,
    {
        let mut slots: Vec<Option<(u16, Vec<u8>)>> = Vec::new();
        while slots.len() < capacity
            invariant
                slots@.len() <= capacity,
                forall|i: int| 0 <= i < slots@.len() ==> slots@[i] is None,
            decreases capacity - slots@.len(),
        {
            slots.push(None);
        }
        InputRing { slots, newest: None }
    }

    fn slot_index(&self, t: u16) -> (r: usize)
        requires
            self.wf(),
        ensures
            r as int == self.slot_of(t),
            r < self.slots@.len(),
    {
        (t as usize) % self.slots.len()
    }

    /// Stores `state` for tick `t`, replacing what shared its slot.
    pub fn store(&mut self, t: u16, state: Vec<u8>)
        requires
            old(self).wf(),
        ensures
            final(self).wf(),
            final(self).capacity() == old(self).capacity(),
            final(self).get(t) == Some(state@),
            forall|u: u16| old(self).slot_of(u) != old(self).slot_of(t) ==> final(self).get(u) == old(self).get(u),
            final(self).newest == (match old(self).newest {
                None => Some(t),
                Some(n) => if tick_diff(t, n) >= 0 || old(self).slot_of(n) == old(self).slot_of(t) {
                    Some(t)
                } else {
                    Some(n)
                },
            }),
    {
        let i = self.slot_index(t);
        let ghost s0 = *self;
        let newest_slot = match self.newest {
            None => 0,
            Some(n) => self.slot_index(n),
        };
        self.slots.set(i, Some((t, state)));
        let newest = match self.newest {
            None => Some(t),
            Some(n) => if sub_ticks(t, n) >= 0 || newest_slot == i {
                Some(t)
            } else {
                Some(n)
            },
        };
        self.newest = newest;
        assert forall|u: u16| s0.slot_of(u) != s0.slot_of(t) implies self.get(u) == s0.get(u) by {
            assert(self.slots@[self.slot_of(u)] == s0.slots@[s0.slot_of(u)]);
        }
    }

    /// The state for tick `t`, copied.
    pub fn get_copy(&self, t: u16) -> (r: Option<Vec<u8>>)
        requires
            self.wf(),
        ensures
            match r {
                None => self.get(t) is None,
                Some(v) => self.get(t) == Some(v@),
            },
    {
        let i = self.slot_index(t);
        match &self.slots[i] {
            Some((tt, v)) => if *tt == t {
                Some(copy_bytes(v))
            } else {
                None
            },
            None => None,
        }
    }

    /// Server lookup for simulating tick `t`.
    pub fn lookup(&self, t: u16) -> (r: InputLookup)
        requires
            self.wf(),
        ensures
            self.get(t) is Some ==> (r matches InputLookup::Exact(x) && self.get(t) == Some(x@)),
            self.get(t) is None && self.newest is None ==> r is Missing,
            (self.get(t) is None && self.newest is Some) ==> (r matches InputLookup::Starved(x)
                && self.get(self.newest->Some_0) == Some(x@)),
    {
        match self.get_copy(t) {
            Some(v) => InputLookup::Exact(v),
            None => match self.newest {
                None => InputLookup::Missing,
                Some(n) => match self.get_copy(n) {
                    Some(v) => InputLookup::Starved(v),
                    None => InputLookup::Missing,
                },
            },
        }
    }

    /// Files the states of an input datagram on the server: `states[i]` is
    /// the state of tick `newest - i`. States for ticks before
    /// `current_tick`, already simulated, are discarded and change nothing;
    /// a tick whose slot no filed state takes keeps what it had.
    ///
    /// Redundancy: a datagram whose newest tick is `k` ticks after a tick
    /// `t` not yet simulated, with `k` below its window, files the state of
    /// `t`. So when the client sends each tick its last `R` states, up to
    /// `R - 1` lost datagrams in a row lose no tick's input: the next one to
    /// arrive before `t` is simulated carries it.
    #[verifier::rlimit(80)]
    pub fn deposit(&mut self, newest: u16, states: Vec<Vec<u8>>, current_tick: u16)
        requires
            old(self).wf(),
            states@.len() <= old(self).capacity(),
            states@.len() <= 32768,
        ensures
            final(self).wf(),
            final(self).capacity() == old(self).capacity(),
            forall|i: int|
                0 <= i < states@.len() && filed(newest, i, current_tick)
                    ==> final(self).get(#[trigger] tick_offset(newest, -i)) == Some(states@[i]@),
            forall|u: u16|
                untouched(old(self).capacity(), newest, states@.len() as int, current_tick, u)
                    ==> #[trigger] final(self).get(u) == old(self).get(u),
            (forall|i: int| 0 <= i < states@.len() ==> !#[trigger] filed(newest, i, current_tick))
                ==> final(self).slots@ == old(self).slots@ && final(self).newest == old(self).newest,
            forall|t: u16, k: int|
                0 <= k < states@.len() && tick_diff(t, current_tick) >= 0 && newest == tick_offset(t, k)
                    ==> #[trigger] final(self).get(t) == Some(#[trigger] states@[k]@),
    {
        let n = states.len();
        let mut states = states;
        let ghost all = states@;
        let mut i: usize = n;
        while i > 0
            invariant
                self.wf(),
                self.capacity() == old(self).capacity(),
                i <= n == all.len(),
                n <= self.capacity(),
                n <= 32768,
                states@ == all.take(i as int),
                forall|k: int|
                    i <= k < n && filed(newest, k, current_tick)
                        ==> self.get(#[trigger] tick_offset(newest, -k)) == Some(all[k]@),
                forall|u: u16|
                    untouched_from(self.capacity(), newest, i as int, n as int, current_tick, u)
                        ==> #[trigger] self.get(u) == old(self).get(u),
                (forall|k: int| i <= k < n ==> !#[trigger] filed(newest, k, current_tick))
                    ==> self.slots@ == old(self).slots@ && self.newest == old(self).newest,
            decreases i,
        {
            let st = states.pop().unwrap();
            let k = i - 1;
            assert(st == all[k as int]);
            let t = add_ticks(newest, (0 - (k as i32)) as i16);
            if sub_ticks(t, current_tick) >= 0 {
                let ghost before = *self;
                assert(filed(newest, k as int, current_tick));
                self.store(t, st);
                assert forall|j: int|
                    k < j < n && filed(newest, j, current_tick)
                        implies self.get(#[trigger] tick_offset(newest, -j)) == Some(all[j]@) by {
                    lemma_distinct_slots(newest, k as int, j, self.capacity());
                    assert(before.slot_of(tick_offset(newest, -j)) != before.slot_of(t));
                }
                assert forall|u: u16|
                    untouched_from(self.capacity(), newest, k as int, n as int, current_tick, u)
                        implies #[trigger] self.get(u) == old(self).get(u) by {
                    lemma_untouched_step(self.capacity(), newest, k as int, n as int, current_tick, u);
                    assert(before.slot_of(u) != before.slot_of(t));
                }
            } else {
                assert(!filed(newest, k as int, current_tick));
                assert forall|u: u16|
                    untouched_from(self.capacity(), newest, k as int, n as int, current_tick, u)
                        implies #[trigger] self.get(u) == old(self).get(u) by {
                    lemma_untouched_step(self.capacity(), newest, k as int, n as int, current_tick, u);
                }
            }
            assert(states@ =~= all.take(k as int));
            i = k;
        }
        proof {
            assert forall|t: u16, k: int|
                0 <= k < n && tick_diff(t, current_tick) >= 0 && newest == tick_offset(t, k)
                    implies #[trigger] self.get(t) == Some(#[trigger] all[k]@) by {
                lemma_window_carries_tick(t, k);
                assert(tick_offset(newest, -k) == t);
                assert(filed(newest, k, current_tick));
            }
            assert forall|u: u16|
                untouched(old(self).capacity(), newest, n as int, current_tick, u)
                    implies #[trigger] self.get(u) == old(self).get(u) by {
            }
        }
    }

    /// The client's outbound window: the states of `newest`, `newest - 1`,
    /// ... up to `window` of them, stopping at the first tick not stored.
    pub fn window_from(&self, newest: u16, window: usize) -> (r: Vec<Vec<u8>>)
        requires
            self.wf(),
            window <= 32768,
        ensures
            r@.len() <= window,
            forall|i: int| 0 <= i < r@.len() ==> self.get(#[trigger] tick_offset(newest, -i)) == Some(r@[i]@),
            r@.len() < window ==> self.get(tick_offset(newest, -(r@.len() as int))) is None,
    {
        let mut out: Vec<Vec<u8>> = Vec::new();
        let mut i: usize = 0;
        while i < window
            invariant
                self.wf(),
                i <= window <= 32768,
                out@.len() == i,
                forall|k: int| 0 <= k < i ==> self.get(#[trigger] tick_offset(newest, -k)) == Some(out@[k]@),
            decreases window - i,
        {
            let t = add_ticks(newest, (0 - (i as i32)) as i16);
            match self.get_copy(t) {
                Some(v) => {
                    out.push(v);
                },
                None => {
                    return out;
                },
            }
            i = i + 1;
        }
        out
    }
}

/// Two ticks of one datagram window, fewer apart than the ring's capacity,
/// fall in different slots when the capacity divides the tick space.
pub proof fn lemma_distinct_slots(newest: u16, a: int, b: int, cap: nat)
    requires
        0 <= a < b,
        b < cap <= 65536,
        65536int % (cap as int) == 0,
    ensures
        (tick_offset(newest, -a) as int) % (cap as int) != (tick_offset(newest, -b) as int) % (cap as int),
{
    let c = cap as int;
    let x = tick_offset(newest, -a) as int;
    let y = tick_offset(newest, -b) as int;
    assert(x == (newest - a) % 65536);
    assert(y == (newest - b) % 65536);
    vstd::arithmetic::div_mod::lemma_fundamental_div_mod(newest - a, 65536);
    vstd::arithmetic::div_mod::lemma_fundamental_div_mod(newest - b, 65536);
    let ja = (newest - a) / 65536;
    let jb = (newest - b) / 65536;
    // x - y == (b - a) + 65536 * (jb - ja)
    assert(x - y == (b - a) + 65536 * (jb - ja));
    let q = 65536int / c;
    vstd::arithmetic::div_mod::lemma_fundamental_div_mod(65536, c);
    assert(65536 == c * q);
    if x % c == y % c {
        vstd::arithmetic::div_mod::lemma_sub_mod_noop(x, y, c);
        vstd::arithmetic::div_mod::lemma_small_mod(0, cap);
        assert((x % c) - (y % c) == 0);
        assert((x - y) % c == 0);
        assert(x - y == c * (q * (jb - ja)) + (b - a)) by (nonlinear_arith)
            requires
                x - y == (b - a) + 65536 * (jb - ja),
                65536 == c * q;
        vstd::arithmetic::div_mod::lemma_mod_multiples_vanish(q * (jb - ja), b - a, c);
        vstd::arithmetic::div_mod::lemma_small_mod((b - a) as nat, cap);
    }
}

/// Redundant sending: an input datagram whose newest tick is `k` ticks
/// after `t`, with `k` below its window, carries the state of `t`. Hence
/// when the client sends each tick a window of `window` states, up to
/// `window - 1` consecutive lost datagrams lose no tick's input, and the
/// server files it on the first one that arrives.
pub proof fn lemma_window_carries_tick(t: u16, k: int)
    requires
        0 <= k < 32768,
    ensures
        tick_offset(tick_offset(t, k), -k) == t,
{
    let n = tick_offset(t, k);
    assert((n as int) == (t + k) % 65536);
    vstd::arithmetic::div_mod::lemma_add_mod_noop(t + k, -k, 65536);
    vstd::arithmetic::div_mod::lemma_mod_twice(t + k, 65536);
    assert(((t + k) % 65536 + (-k)) % 65536 == (t as int) % 65536) by {
        vstd::arithmetic::div_mod::lemma_add_mod_noop((t + k) % 65536, -k, 65536);
        vstd::arithmetic::div_mod::lemma_add_mod_noop(t + k, -k, 65536);
    }
    vstd::arithmetic::div_mod::lemma_small_mod(t as nat, 65536);
}

/// Copies a byte vector element by element.
pub fn copy_bytes(v: &Vec<u8>) -> (r: Vec<u8>)
    ensures
        r@ == v@,
{
    let mut out: Vec<u8> = Vec::new();
    let mut i: usize = 0;
    while i < v.len()
        invariant
            i <= v@.len(),
            out@ == v@.take(i as int),
        decreases v@.len() - i,
    {
        out.push(v[i]);
        assert(v@.take(i + 1) =~= v@.take(i as int).push(v@[i as int]));
        i = i + 1;
    }
    assert(v@.take(i as int) =~= v@);
    out
}

} // verus!
