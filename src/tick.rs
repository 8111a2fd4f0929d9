//! Sixteen-bit simulation ticks with wrapping arithmetic, and the fixed-rate
//! timeline that advances them from elapsed wall time.
use vstd::prelude::*;

verus! {

/// Number of distinct tick values.
pub const TICK_SPACE: u32 = 65536;

/// The signed distance from `b` to `a`: their difference modulo 2^16, taken
/// in the range [-2^15, 2^15).
pub open spec fn tick_diff(a: u16, b: u16) -> int {
    let d = (a as int - b as int) % 65536;
    if d < 32768 { d } else { d - 65536 }
}

/// The tick `delta` steps after `t`, wrapping modulo 2^16.
pub open spec fn tick_offset(t: u16, delta: int) -> u16 {
    ((t as int + delta) % 65536) as u16
}

/// Signed distance `a - b` between two ticks, with wraparound made invisible.
pub fn sub_ticks(a: u16, b: u16) -> (r: i16)
    ensures
        r as int == tick_diff(a, b),
{
    if a >= b {
        let d: u16 = a - b;
        if d < 32768 {
            d as i16
        } else {
            (d as i32 - 65536) as i16
        }
    } else {
        let d: u16 = b - a;
        if d <= 32768 {
            (0i32 - d as i32) as i16
        } else {
            (65536 - d as i32) as i16
        }
    }
}

/// The tick `delta` steps after `t` (before it, for a negative `delta`).
pub fn add_ticks(t: u16, delta: i16) -> (r: u16)
    ensures
        r == tick_offset(t, delta as int),
{
    let s: i32 = t as i32 + delta as i32;
    if s < 0 {
        (s + 65536) as u16
    } else if s >= 65536 {
        (s - 65536) as u16
    } else {
        s as u16
    }
}

/// Whether tick `a` comes strictly after tick `b`.
pub fn is_after(a: u16, b: u16) -> (r: bool)
    ensures
        r == (tick_diff(a, b) > 0),
{
    sub_ticks(a, b) > 0
}

/// Ticks whose unwrapped values lie less than 2^15 apart have a signed
/// distance equal to the plain difference of the unwrapped values.
pub proof fn lemma_tick_diff_unwrapped(x: nat, y: nat)
    requires
        -32768 < x - y < 32768,
    ensures
        tick_diff((x % 65536) as u16, (y % 65536) as u16) == x - y,
{
    let a = x % 65536;
    let b = y % 65536;
    assert(x == 65536 * (x / 65536) + a) by (nonlinear_arith)
        requires a == x % 65536;
    assert(y == 65536 * (y / 65536) + b) by (nonlinear_arith)
        requires b == y % 65536;
    let k = x / 65536 - y / 65536;
    assert(a - b == (x - y) - 65536 * k) by (nonlinear_arith)
        requires
            x == 65536 * (x / 65536) + a,
            y == 65536 * (y / 65536) + b,
            k == x / 65536 - y / 65536;
    assert(-1 <= k <= 1) by (nonlinear_arith)
        requires
            a - b == (x - y) - 65536 * k,
            0 <= a < 65536,
            0 <= b < 65536,
            -32768 < x - y < 32768;
}

/// Within half the tick space, the signed distance is antisymmetric.
pub proof fn lemma_tick_diff_antisymmetric(a: u16, b: u16)
    requires
        tick_diff(a, b) != -32768,
    ensures
        tick_diff(a, b) == -tick_diff(b, a),
{
}

/// Adding the distance from `b` to `a` to `b` gives back `a`.
pub proof fn lemma_tick_offset_diff(a: u16, b: u16)
    ensures
        tick_offset(b, tick_diff(a, b)) == a,
{
}

/// A tick at distance 0 is the same tick.
pub proof fn lemma_tick_diff_zero(a: u16, b: u16)
    requires
        tick_diff(a, b) == 0,
    ensures
        a == b,
{
    lemma_tick_offset_diff(a, b);
    vstd::arithmetic::div_mod::lemma_small_mod(b as nat, 65536);
}

/// Distances add up when the total stays within half the tick space.
pub proof fn lemma_tick_diff_compose(a: u16, b: u16, c: u16)
    requires
        -32768 < tick_diff(b, c),
        -32768 < tick_diff(a, b) + tick_diff(b, c) < 32768,
    ensures
        tick_diff(a, c) == tick_diff(a, b) + tick_diff(b, c),
{
    let x = tick_diff(a, b);
    let y = tick_diff(b, c);
    let big = b as int + 131072;
    lemma_tick_offset_diff(a, b);
    lemma_tick_diff_antisymmetric(b, c);
    lemma_tick_offset_diff(c, b);
    assert(a as int == (b as int + x) % 65536);
    assert(c as int == (b as int - y) % 65536);
    vstd::arithmetic::div_mod::lemma_mod_multiples_vanish(2, b as int + x, 65536);
    vstd::arithmetic::div_mod::lemma_mod_multiples_vanish(2, b as int - y, 65536);
    assert(65536 * 2 + (b as int + x) == big + x);
    assert(65536 * 2 + (b as int - y) == big - y);
    lemma_tick_diff_unwrapped((big + x) as nat, (big - y) as nat);
}

/// A fixed-rate clock: wall time in microseconds is accumulated and turned
/// into whole ticks.
pub struct Timeline {
    pub tick: u16,
    pub tick_duration_us: u64,
    pub accumulator_us: u64,
}

impl Timeline {
    /// Well-formed: a positive tick duration, and less than one tick of
    /// wall time left unsimulated.
    pub open spec fn wf(&self) -> bool {
        &&& self.tick_duration_us > 0
        &&& self.accumulator_us < self.tick_duration_us
    }

    /// A timeline at `tick` with nothing accumulated.
    pub fn new(tick: u16, tick_duration_us: u64) -> (r: Timeline)
        requires
            tick_duration_us > 0,
        ensures
            r.wf(),
            r.tick == tick,
            r.tick_duration_us == tick_duration_us,
            r.accumulator_us == 0,
    {
        Timeline { tick, tick_duration_us, accumulator_us: 0 }
    }

    /// The tick duration for a simulation running at `tick_hz` ticks per
    /// second, rounded down to whole microseconds.
    pub fn duration_for_rate(tick_hz: u32) -> (r: u64)
        requires
            0 < tick_hz <= 1_000_000,
        ensures
            r == 1_000_000int / (tick_hz as int),
            r > 0,
    {
        let r: u64 = 1_000_000u64 / tick_hz as u64;
        assert(r > 0) by (nonlinear_arith)
            requires r == 1_000_000int / (tick_hz as int), 0 < tick_hz <= 1_000_000;
        r
    }

    /// Adds `elapsed_us` of wall time and advances the tick by the number of
    /// whole tick durations now accumulated; returns that number.
    pub fn advance(&mut self, elapsed_us: u64) -> (steps: u64)
        requires
            old(self).wf(),
        ensures
            final(self).wf(),
            final(self).tick_duration_us == old(self).tick_duration_us,
            steps == (old(self).accumulator_us + elapsed_us) / (old(self).tick_duration_us as int),
            final(self).accumulator_us == (old(self).accumulator_us + elapsed_us) % (
            old(self).tick_duration_us as int),
            final(self).tick == tick_offset(old(self).tick, steps as int),
    {
        let total: u128 = self.accumulator_us as u128 + elapsed_us as u128;
        let dur: u128 = self.tick_duration_us as u128;
        let q: u128 = total / dur;
        let rem: u128 = total % dur;
        assert(q < 0x1_0000_0000_0000_0000) by (nonlinear_arith)
            requires
                q == total / dur,
                total == self.accumulator_us + elapsed_us,
                self.accumulator_us < dur,
                elapsed_us < 0x1_0000_0000_0000_0000,
                dur > 0,
        {
            if dur == 1 {
            } else {
                assert(q * dur <= total);
                assert(q * 2 <= q * dur);
            }
        }
        let steps = q as u64;
        let wrapped: u16 = (q % 65536) as u16;
        let s: u32 = self.tick as u32 + wrapped as u32;
        let t: u16 = if s >= 65536 { (s - 65536) as u16 } else { s as u16 };
        assert(t as int == (self.tick as int + q) % 65536) by (nonlinear_arith)
            requires
                wrapped == q % 65536,
                s == self.tick + wrapped,
                t == (if s >= 65536 { s - 65536 } else { s as int }),
                q >= 0,
        {
            vstd::arithmetic::div_mod::lemma_add_mod_noop(self.tick as int, q as int, 65536);
            vstd::arithmetic::div_mod::lemma_mod_twice(q as int, 65536);
        }
        self.tick = t;
        self.accumulator_us = rem as u64;
        steps
    }
}

/// Estimate of the sender's current tick from a tick it stamped on a packet:
/// half the round trip, in whole ticks rounded to nearest, is added.
pub open spec fn remote_tick_estimate(packet_tick: u16, rtt_us: u64, tick_duration_us: u64) -> u16 {
    tick_offset(packet_tick, ((rtt_us / 2) as int + tick_duration_us / 2) / tick_duration_us as int)
}

/// Current tick of a remote endpoint, from the tick carried by its packet
/// and the measured round-trip time.
pub fn estimate_remote_tick(packet_tick: u16, rtt_us: u64, tick_duration_us: u64) -> (r: u16)
    requires
        tick_duration_us > 0,
    ensures
        r == remote_tick_estimate(packet_tick, rtt_us, tick_duration_us),
{
    let half: u64 = rtt_us / 2;
    let ticks: u64 = ((half as u128 + (tick_duration_us / 2) as u128) / tick_duration_us as u128) as u64;
    let wrapped: u16 = (ticks % 65536) as u16;
    let s: u32 = packet_tick as u32 + wrapped as u32;
    let t: u16 = if s >= 65536 { (s - 65536) as u16 } else { s as u16 };
    proof {
        vstd::arithmetic::div_mod::lemma_add_mod_noop(packet_tick as int, ticks as int, 65536);
        vstd::arithmetic::div_mod::lemma_mod_twice(ticks as int, 65536);
    }
    t
}

/// Ticks the predicted timeline leads the server's estimated tick: the
/// one-way trip rounded up to whole ticks, plus the input buffer wanted at
/// the server.
pub open spec fn lead_ticks(rtt_us: u64, tick_duration_us: u64, buffer_ticks: u16) -> int {
    ((rtt_us / 2) as int + tick_duration_us - 1) / (tick_duration_us as int) + buffer_ticks
}

/// The predicted timeline's lead over the server, `lead_ticks`, saturated at
/// the largest distance two ticks can have.
pub fn prediction_lead(rtt_us: u64, tick_duration_us: u64, buffer_ticks: u16) -> (r: u16)
    requires
        tick_duration_us > 0,
    ensures
        r == (if lead_ticks(rtt_us, tick_duration_us, buffer_ticks) > 32767 {
            32767
        } else {
            lead_ticks(rtt_us, tick_duration_us, buffer_ticks)
        }),
{
    let half: u128 = (rtt_us / 2) as u128;
    let trip: u128 = (half + tick_duration_us as u128 - 1) / tick_duration_us as u128;
    let lead: u128 = trip + buffer_ticks as u128;
    if lead > 32767 { 32767 } else { lead as u16 }
}

/// The tick the predicted timeline should be at, `lead` ticks after the
/// server's estimated tick.
pub fn predicted_target(server_estimate: u16, lead: u16) -> (r: u16)
    requires
        lead <= 32767,
    ensures
        r == tick_offset(server_estimate, lead as int),
{
    add_ticks(server_estimate, lead as i16)
}

/// The tick the interpolation timeline should be at, `delay` ticks before
/// the server's estimated tick.
pub fn interpolation_target(server_estimate: u16, delay: u16) -> (r: u16)
    requires
        delay <= 32767,
    ensures
        r == tick_offset(server_estimate, -(delay as int)),
{
    add_ticks(server_estimate, (0 - delay as i32) as i16)
}

/// Largest share, in percent, by which one tick is shortened or lengthened.
pub const MAX_ADJUST_PERCENT: i64 = 10;

/// Percent by which to shorten the next tick (lengthen, when negative): the
/// shortfall of the input arrival margin below `target`, times `gain`,
/// limited to plus or minus `MAX_ADJUST_PERCENT`.
pub open spec fn adjust_percent(margin: i32, target: i32, gain: u8) -> int {
    let e = (target - margin) * gain;
    if e > MAX_ADJUST_PERCENT { MAX_ADJUST_PERCENT as int } else if e < -MAX_ADJUST_PERCENT { -MAX_ADJUST_PERCENT } else { e }
}

/// Duration of the client's next tick under the proportional controller: a
/// client whose inputs arrive with less margin than wanted runs its ticks
/// shorter to catch up; one with more margin runs them longer.
pub fn adjusted_tick_duration(tick_duration_us: u64, margin: i32, target: i32, gain: u8) -> (r: u64)
    requires
        tick_duration_us <= 1_000_000_000,
    ensures
        r as int == tick_duration_us * (100 - adjust_percent(margin, target, gain)) / 100,
{
    let diff: i64 = target as i64 - margin as i64;
    assert(-0x1_0000_0000 * 256 <= diff * gain <= 0x1_0000_0000 * 256) by (nonlinear_arith)
        requires -0x1_0000_0000 <= diff <= 0x1_0000_0000, 0 <= gain <= 255;
    let e: i64 = diff * gain as i64;
    let p: i64 = if e > MAX_ADJUST_PERCENT {
        MAX_ADJUST_PERCENT
    } else if e < -MAX_ADJUST_PERCENT {
        -MAX_ADJUST_PERCENT
    } else {
        e
    };
    let factor: u64 = (100 - p) as u64;
    assert(tick_duration_us * factor <= 1_000_000_000 * 110) by (nonlinear_arith)
        requires tick_duration_us <= 1_000_000_000, factor <= 110;
    tick_duration_us * factor / 100
}

} // verus!
