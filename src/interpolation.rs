//! Interpolation of remote entities: a bounded buffer of (tick, value)
//! samples, read one interpolation delay behind the present by blending
//! linearly between the two samples that bracket the render instant.
//! Ticks here count without wrapping along the client's timeline; values are
//! fixed-point.
use vstd::prelude::*;
use vstd::arithmetic::div_mod::{lemma_div_is_ordered, lemma_div_multiples_vanish};

verus! {

/// Largest tick duration accepted, in microseconds.
pub const MAX_TICK_US: u32 = 1_048_576;

/// Render instant of a sample taken at `tick`.
pub open spec fn time_of(tick: u32, d: u32) -> int {
    tick as int * d as int
}

/// Division rounding toward zero.
pub open spec fn div_trunc(n: int, d: int) -> int {
    if n >= 0 { n / d } else { -((-n) / d) }
}

/// Linear blend between samples `a` and `c` at instant `t`.
pub open spec fn lerp(a: (u32, i64), c: (u32, i64), d: u32, t: int) -> int {
    a.1 + div_trunc((c.1 - a.1) * (t - time_of(a.0, d)), time_of(c.0, d) - time_of(a.0, d))
}

/// Index of the last of the first `k` samples taken at or before `t`, or
/// -1 when there is none.
pub open spec fn bracket(s: Seq<(u32, i64)>, d: u32, t: int, k: nat) -> int
    decreases k,
{
    if k == 0 {
        -1
    } else if time_of(s[k - 1].0, d) <= t {
        k - 1
    } else {
        bracket(s, d, t, (k - 1) as nat)
    }
}

/// The value shown at instant `t`: before the first sample, the first
/// value; from the newest sample on, the newest value, unchanged; between,
/// the blend of the two samples around `t`.
pub open spec fn value_at(s: Seq<(u32, i64)>, d: u32, t: int) -> int {
    let n = s.len();
    let b = bracket(s, d, t, n);
    if n == 0 {
        0
    } else if b < 0 {
        s[0].1 as int
    } else if b == n - 1 {
        s[n - 1].1 as int
    } else {
        lerp(s[b], s[b + 1], d, t)
    }
}

/// Samples strictly increase in tick.
pub open spec fn ticks_increase(s: Seq<(u32, i64)>) -> bool {
    forall|i: int, j: int| 0 <= i < j < s.len() ==> s[i].0 < s[j].0
}

pub struct SnapshotBuffer {
    pub samples: Vec<(u32, i64)>,
    pub cap: usize,
    pub tick_duration_us: u32,
}

/// A rendered value, and whether the render instant had passed the newest
/// sample (an interpolation stall).
#[derive(Clone, Copy, Debug, PartialEq, Eq, Structural)]
pub struct Rendered {
    pub value: i64,
    pub stalled: bool,
}

proof fn lemma_bracket_props(s: Seq<(u32, i64)>, d: u32, t: int, k: nat)
    requires
        k <= s.len(),
        ticks_increase(s),
    ensures
        -1 <= bracket(s, d, t, k) < k,
        bracket(s, d, t, k) >= 0 ==> time_of(s[bracket(s, d, t, k)].0, d) <= t,
        forall|i: int| bracket(s, d, t, k) < i < k ==> time_of(#[trigger] s[i].0, d) > t,
    decreases k,
{
    if k > 0 {
        lemma_bracket_props(s, d, t, (k - 1) as nat);
    }
}

proof fn lemma_time_mono(a: u32, b: u32, d: u32)
    requires
        a <= b,
    ensures
        time_of(a, d) <= time_of(b, d),
{
    assert(a as int * d as int <= b as int * d as int) by (nonlinear_arith)
        requires a <= b;
}

/// The blend lies between the two samples' values.
proof fn lemma_lerp_between(a: (u32, i64), c: (u32, i64), d: u32, t: int)
    requires
        time_of(a.0, d) <= t <= time_of(c.0, d),
        time_of(a.0, d) < time_of(c.0, d),
    ensures
        a.1 <= c.1 ==> a.1 <= lerp(a, c, d, t) <= c.1,
        a.1 > c.1 ==> c.1 <= lerp(a, c, d, t) <= a.1,
{
    let den = time_of(c.0, d) - time_of(a.0, d);
    let off = t - time_of(a.0, d);
    let dv = c.1 - a.1;
    if dv >= 0 {
        assert(0 <= dv * off <= dv * den) by (nonlinear_arith)
            requires 0 <= off <= den, dv >= 0;
        lemma_div_is_ordered(0, dv * off, den);
        lemma_div_is_ordered(dv * off, dv * den, den);
        lemma_div_multiples_vanish(dv, den);
        assert(den * dv == dv * den) by (nonlinear_arith);
    } else {
        let e = -dv;
        assert(0 <= e * off <= e * den) by (nonlinear_arith)
            requires 0 <= off <= den, e >= 0;
        assert(-(dv * off) == e * off) by (nonlinear_arith)
            requires e == -dv;
        lemma_div_is_ordered(0, e * off, den);
        lemma_div_is_ordered(e * off, e * den, den);
        lemma_div_multiples_vanish(e, den);
        assert(den * e == e * den) by (nonlinear_arith);
    }
}

/// Computes `time_of(tick, d)`.
pub fn time_us(tick: u32, d: u32) -> (r: u64)
    requires
        d <= MAX_TICK_US,
    ensures
        r as int == time_of(tick, d),
        r <= 0x10_0000_0000_0000,
{
    assert(tick as int * d as int <= 0x10_0000_0000_0000) by (nonlinear_arith)
        requires tick <= 0xFFFF_FFFF, d <= 1_048_576;
    tick as u64 * d as u64
}

/// The interpolation instant: `delay_ticks` tick durations before `now_us`,
/// or zero when that lies before the start of time.
pub fn render_instant(now_us: u64, delay_ticks: u32, tick_duration_us: u32) -> (r: u64)
    requires
        tick_duration_us <= MAX_TICK_US,
    ensures
        r as int == if now_us >= time_of(delay_ticks, tick_duration_us) {
            now_us - time_of(delay_ticks, tick_duration_us)
        } else {
            0
        },
{
    let back = time_us(delay_ticks, tick_duration_us);
    if now_us >= back { now_us - back } else { 0 }
}

impl SnapshotBuffer {
    pub open spec fn wf(&self) -> bool {
        &&& 0 < self.cap
        &&& self.samples@.len() <= self.cap
        &&& 0 < self.tick_duration_us <= MAX_TICK_US
        &&& ticks_increase(self.samples@)
    }

    /// An empty buffer of at most `cap` samples, `tick_duration_us` apart per
    /// tick.
    pub fn new(cap: usize, tick_duration_us: u32) -> (r: SnapshotBuffer)
        requires
            0 < cap,
            0 < tick_duration_us <= MAX_TICK_US,
        ensures
            r.wf(),
            r.samples@.len() == 0,
            r.cap == cap,
            r.tick_duration_us == tick_duration_us,
    {
        SnapshotBuffer { samples: Vec::new(), cap, tick_duration_us }
    }

    /// Appends the sample of `tick` if it is newer than every sample held;
    /// the oldest sample goes when the buffer is full. Returns whether the
    /// sample was taken.
    pub fn push(&mut self, tick: u32, value: i64) -> (r: bool)
        requires
            old(self).wf(),
        ensures
            final(self).wf(),
            final(self).cap == old(self).cap,
            final(self).tick_duration_us == old(self).tick_duration_us,
            r == (old(self).samples@.len() == 0 || old(self).samples@.last().0 < tick),
            !r ==> final(self).samples@ == old(self).samples@,
            r && old(self).samples@.len() < old(self).cap ==> final(self).samples@ == old(self).samples@.push((tick, value)),
            r && old(self).samples@.len() == old(self).cap ==> final(self).samples@ == old(self).samples@.push((tick, value)).drop_first(),
    {
        let n = self.samples.len();
        if n > 0 && self.samples[n - 1].0 >= tick {
            return false;
        }
        let ghost s0 = self.samples@;
        self.samples.push((tick, value));
        assert(ticks_increase(self.samples@)) by {
            assert forall|i: int, j: int| 0 <= i < j < self.samples@.len() implies self.samples@[i].0 < self.samples@[j].0 by {
                if j == n as int && i < n as int {
                    assert(s0[i].0 <= s0[n - 1].0);
                }
            }
        }
        if self.samples.len() > self.cap {
            let ghost s1 = self.samples@;
            self.samples.remove(0);
            assert(self.samples@ =~= s1.drop_first());
        }
        true
    }

    /// The value to show at render instant `t_us`.
    pub fn sample(&self, t_us: u64) -> (r: Option<Rendered>)
        requires
            self.wf(),
        ensures
            self.samples@.len() == 0 <==> r is None,
            r matches Some(x) ==> {
                &&& x.value as int == value_at(self.samples@, self.tick_duration_us, t_us as int)
                &&& x.stalled == (time_of(self.samples@.last().0, self.tick_duration_us) < t_us)
            },
    {
        let n = self.samples.len();
        if n == 0 {
            return None;
        }
        let dd = self.tick_duration_us;
        let ghost s = self.samples@;
        let ghost t = t_us as int;
        proof {
            lemma_bracket_props(s, self.tick_duration_us, t, n as nat);
        }
        let (last_tick, last_value) = self.samples[n - 1];
        let last_time: u64 = time_us(last_tick, dd);
        let stalled = last_time < t_us;
        // Find the last sample at or before t, scanning from the newest.
        let mut k: usize = n;
        let mut done = false;
        while !done && k > 0
            invariant
                0 <= k <= n == s.len(),
                s == self.samples@,
                t == t_us as int,
                dd == self.tick_duration_us,
                self.wf(),
                bracket(s, self.tick_duration_us, t, n as nat) == bracket(s, self.tick_duration_us, t, k as nat),
                done ==> k > 0 && time_of(s[k - 1].0, dd) <= t,
            decreases k, !done as int,
        {
            let tk = time_us(self.samples[k - 1].0, dd);
            if tk <= t_us {
                done = true;
            } else {
                assert(bracket(s, dd, t, k as nat) == bracket(s, dd, t, (k - 1) as nat));
                k = k - 1;
            }
        }
        let ghost b = bracket(s, self.tick_duration_us, t, n as nat);
        assert(b == k - 1);
        if k == 0 {
            return Some(Rendered { value: self.samples[0].1, stalled });
        }
        let i = k - 1;
        if i == n - 1 {
            return Some(Rendered { value: last_value, stalled });
        }
        let (t0, v0) = self.samples[i];
        let (t1, v1) = self.samples[i + 1];
        proof {
            lemma_time_mono(t0, t1, self.tick_duration_us);
            assert(t0 < t1);
            assert(time_of(t0, self.tick_duration_us) < time_of(t1, self.tick_duration_us)) by (nonlinear_arith)
                requires t0 < t1, self.tick_duration_us > 0;
            assert(time_of(t1, self.tick_duration_us) <= 0xFFFF_FFFF * 1_048_576) by (nonlinear_arith)
                requires t1 <= 0xFFFF_FFFF, self.tick_duration_us <= 1_048_576;
            lemma_lerp_between(s[i as int], s[i + 1], self.tick_duration_us, t);
        }
        let start: u64 = time_us(t0, dd);
        let end: u64 = time_us(t1, dd);
        let off: i128 = (t_us - start) as i128;
        let den: i128 = (end - start) as i128;
        let dv: i128 = v1 as i128 - v0 as i128;
        assert(0 <= off <= 0x10_0000_0000_0000);
        assert(-0x1_0000_0000_0000_0000 <= dv <= 0x1_0000_0000_0000_0000);
        assert(-0x100_0000_0000_0000_0000_0000_0000_0000 <= dv * off <= 0x100_0000_0000_0000_0000_0000_0000_0000) by (nonlinear_arith)
            requires
                -0x1_0000_0000_0000_0000 <= dv <= 0x1_0000_0000_0000_0000,
                0 <= off <= 0x10_0000_0000_0000;
        let num: i128 = dv * off;
        let q: i128 = if num >= 0 { num / den } else { -((-num) / den) };
        let v: i128 = v0 as i128 + q;
        Some(Rendered { value: v as i64, stalled })
    }

    /// Retires the samples older than the bracket of instant `t_us`: every
    /// sample followed by one at or before `t_us`.
    pub fn retire(&mut self, t_us: u64)
        requires
            old(self).wf(),
        ensures
            final(self).wf(),
            final(self).cap == old(self).cap,
            final(self).tick_duration_us == old(self).tick_duration_us,
            exists|k: int|
                0 <= k <= old(self).samples@.len() && final(self).samples@ == old(self).samples@.skip(k)
                    && forall|i: int| 0 <= i < k ==> time_of(
                        #[trigger] old(self).samples@[i + 1].0,
                        old(self).tick_duration_us,
                    ) <= t_us,
            final(self).samples@.len() >= 2 ==> time_of(final(self).samples@[1].0, final(self).tick_duration_us)
                > t_us,
    {
        let ghost s0 = self.samples@;
        let dd = self.tick_duration_us;
        let n0 = self.samples.len();
        let mut k: usize = 0;
        while self.samples.len() >= 2 && time_us(self.samples[1].0, dd) <= t_us
            invariant
                self.wf(),
                self.cap == old(self).cap,
                self.tick_duration_us == old(self).tick_duration_us,
                dd == self.tick_duration_us,
                n0 == s0.len(),
                k + self.samples@.len() == n0,
                self.samples@ == s0.skip(k as int),
                forall|i: int| 0 <= i < k ==> time_of(#[trigger] s0[i + 1].0, old(self).tick_duration_us) <= t_us,
            decreases self.samples@.len(),
        {
            let ghost before = self.samples@;
            self.samples.remove(0);
            assert(self.samples@ =~= s0.skip(k + 1));
            assert(s0[k + 1] == before[1]);
            k = k + 1;
        }
    }
}

/// Interpolation is monotone: when the samples' values never decrease along
/// the buffer, the value shown never decreases as the render instant moves
/// forward.
pub proof fn lemma_interpolation_monotone(s: Seq<(u32, i64)>, d: u32, t: int, t2: int)
    requires
        ticks_increase(s),
        0 < d,
        forall|i: int, j: int| 0 <= i < j < s.len() ==> s[i].1 <= s[j].1,
        t <= t2,
    ensures
        value_at(s, d, t) <= value_at(s, d, t2),
{
    let n = s.len();
    if n == 0 {
        return;
    }
    lemma_bracket_props(s, d, t, n);
    lemma_bracket_props(s, d, t2, n);
    let b = bracket(s, d, t, n);
    let b2 = bracket(s, d, t2, n);
    // The bracket moves forward with the instant.
    if b2 < b {
        assert(time_of(s[b].0, d) <= t);
        assert(time_of(s[b].0, d) > t2);
    }
    assert(b <= b2);
    if 0 <= b < n - 1 {
        assert(time_of(s[b + 1].0, d) > t);
        assert(s[b].0 < s[b + 1].0);
        assert(time_of(s[b].0, d) < time_of(s[b + 1].0, d)) by (nonlinear_arith)
            requires s[b].0 < s[b + 1].0, d > 0;
        lemma_lerp_between(s[b], s[b + 1], d, t);
    }
    if 0 <= b2 < n - 1 {
        assert(time_of(s[b2 + 1].0, d) > t2);
        assert(s[b2].0 < s[b2 + 1].0);
        assert(time_of(s[b2].0, d) < time_of(s[b2 + 1].0, d)) by (nonlinear_arith)
            requires s[b2].0 < s[b2 + 1].0, d > 0;
        lemma_lerp_between(s[b2], s[b2 + 1], d, t2);
    }
    if b == b2 && 0 <= b < n - 1 {
        // Same pair of samples: the blend grows with the offset.
        let a = s[b];
        let c = s[b + 1];
        let den = time_of(c.0, d) - time_of(a.0, d);
        let off = t - time_of(a.0, d);
        let off2 = t2 - time_of(a.0, d);
        let dv = c.1 - a.1;
        assert(dv * off <= dv * off2) by (nonlinear_arith)
            requires dv >= 0, off <= off2;
        assert(0 <= dv * off) by (nonlinear_arith)
            requires dv >= 0, off >= 0;
        lemma_div_is_ordered(dv * off, dv * off2, den);
    }
}

} // verus!
