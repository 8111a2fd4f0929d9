//! Client-side prediction and rollback. Predicted state is a vector of
//! fixed-point component values; a history entry per tick records the state
//! after the step and the input used. An authoritative update is compared
//! with the history at its tick; on divergence the state is reset to the
//! authoritative one and the inputs since are replayed.
use vstd::prelude::*;
use crate::tick::{sub_ticks, add_ticks, tick_diff, tick_offset};

verus! {

/// A deterministic simulation step of the game: the state after one tick
/// from `state` under `input`.
pub trait Simulation {
    spec fn step_spec(&self, state: Seq<i64>, input: Seq<u8>) -> Seq<i64>;

    fn step(&self, state: &Vec<i64>, input: &Vec<u8>) -> (r: Vec<i64>)
        ensures
            r@ == self.step_spec(state@, input@),
    ;
}

/// The state reached from `s` by stepping once under each of `inputs`, in
/// order.
pub open spec fn replay<S: Simulation>(sim: &S, s: Seq<i64>, inputs: Seq<Seq<u8>>) -> Seq<i64>
    decreases inputs.len(),
{
    if inputs.len() == 0 {
        s
    } else {
        sim.step_spec(replay(sim, s, inputs.drop_last()), inputs.last())
    }
}

/// How one component decides whether a mismatch calls for a rollback.
#[derive(Clone, Copy, Debug, PartialEq, Eq, Structural)]
pub enum RollbackTest {
    /// Any difference at all.
    Exact,
    /// A difference larger than the given tolerance.
    Within(u64),
    /// Never: the component is not corrected by rollback.
    Never,
}

/// The test of component `i`; components without one are compared exactly.
pub open spec fn test_at(tests: Seq<RollbackTest>, i: int) -> RollbackTest {
    if 0 <= i < tests.len() { tests[i] } else { RollbackTest::Exact }
}

pub open spec fn component_diverges(t: RollbackTest, a: i64, b: i64) -> bool {
    match t {
        RollbackTest::Exact => a != b,
        RollbackTest::Within(tol) => abs_diff(a, b) > tol,
        RollbackTest::Never => false,
    }
}

/// Whether a predicted state and an authoritative one differ enough for a
/// rollback: in their number of components, or in some component by its
/// own test.
pub open spec fn diverges(predicted: Seq<i64>, authoritative: Seq<i64>, tests: Seq<RollbackTest>) -> bool {
    predicted.len() != authoritative.len() || exists|i: int|
        0 <= i < predicted.len() && #[trigger] component_diverges(test_at(tests, i), predicted[i], authoritative[i])
}

pub open spec fn abs_diff(a: i64, b: i64) -> int {
    if a >= b { a - b } else { b - a }
}

/// The should-rollback test: `diverges`, computed.
pub fn should_rollback(predicted: &Vec<i64>, authoritative: &Vec<i64>, tests: &Vec<RollbackTest>) -> (r: bool)
    ensures
        r == diverges(predicted@, authoritative@, tests@),
{
    if predicted.len() != authoritative.len() {
        return true;
    }
    let mut i: usize = 0;
    while i < predicted.len()
        invariant
            i <= predicted@.len() == authoritative@.len(),
            forall|k: int| 0 <= k < i ==> !#[trigger] component_diverges(test_at(tests@, k), predicted@[k], authoritative@[k]),
        decreases predicted@.len() - i,
    {
        let t = if i < tests.len() { tests[i] } else { RollbackTest::Exact };
        assert(t == test_at(tests@, i as int));
        let a = predicted[i] as i128;
        let b = authoritative[i] as i128;
        let bad = match t {
            RollbackTest::Exact => a != b,
            RollbackTest::Within(tol) => {
                let d: i128 = if a >= b { a - b } else { b - a };
                d > tol as i128
            },
            RollbackTest::Never => false,
        };
        if bad {
            assert(component_diverges(test_at(tests@, i as int), predicted@[i as int], authoritative@[i as int]));
            return true;
        }
        i = i + 1;
    }
    false
}

/// Copies a state vector.
pub fn copy_state(v: &Vec<i64>) -> (r: Vec<i64>)
    ensures
        r@ == v@,
{
    let mut out: Vec<i64> = Vec::new();
    let mut i: usize = 0;
    while i < v.len()
        invariant
            i <= v@.len(),
            out@ == v@.take(i as int),
        decreases v@.len() - i,
    {
        out.push(v[i]);
        assert(v@.take(i + 1) =~= v@.take(i as int).push(v@[i as int]));
        i = i + 1;
    }
    assert(v@.take(i as int) =~= v@);
    out
}

/// In a chained history, entry `j` is `j` ticks after the first.
pub proof fn lemma_chain_ticks<S: Simulation>(sim: &S, h: Seq<HistoryEntry>)
    requires
        chained(sim, h),
    ensures
        forall|j: int| 0 <= j < h.len() ==> (#[trigger] h[j]).tick == tick_offset(h[0].tick, j),
{
    assert forall|j: int| 0 <= j < h.len() implies (#[trigger] h[j]).tick == tick_offset(h[0].tick, j) by {
        lemma_chain_tick_at(sim, h, j);
    }
}

proof fn lemma_chain_tick_at<S: Simulation>(sim: &S, h: Seq<HistoryEntry>, j: int)
    requires
        chained(sim, h),
        0 <= j < h.len(),
    ensures
        h[j].tick == tick_offset(h[0].tick, j),
    decreases j,
{
    if j > 0 {
        lemma_chain_tick_at(sim, h, j - 1);
        let b = h[0].tick as int;
        assert(h[j].tick == tick_offset(h[j - 1].tick, 1));
        vstd::arithmetic::div_mod::lemma_add_mod_noop(b + j - 1, 1, 65536);
        vstd::arithmetic::div_mod::lemma_mod_twice(b + j - 1, 65536);
        vstd::arithmetic::div_mod::lemma_small_mod(1, 65536);
        assert(((b + j - 1) % 65536 + 1) % 65536 == (b + j) % 65536) by {
            vstd::arithmetic::div_mod::lemma_add_mod_noop_right(1, b + j - 1, 65536);
            vstd::arithmetic::div_mod::lemma_add_mod_noop(b + j - 1, 1, 65536);
        }
    }
}

/// One tick of prediction history.
#[derive(Debug)]
pub struct HistoryEntry {
    pub tick: u16,
    pub state: Vec<i64>,
    pub input: Vec<u8>,
}

pub open spec fn inputs_of(h: Seq<HistoryEntry>) -> Seq<Seq<u8>> {
    h.map_values(|e: HistoryEntry| e.input@)
}

/// History entries hold consecutive ticks, and each state is the step of
/// the one before under the entry's own input.
pub open spec fn chained<S: Simulation>(sim: &S, h: Seq<HistoryEntry>) -> bool {
    forall|j: int|
        0 < j < h.len() ==> {
            &&& (#[trigger] h[j]).tick == tick_offset(h[j - 1].tick, 1)
            &&& h[j].state@ == sim.step_spec(h[j - 1].state@, h[j].input@)
        }
}

#[derive(Clone, Copy, Debug, PartialEq, Eq, Structural)]
pub enum PredictionPhase {
    AwaitingInitial,
    Predicting,
    Despawned,
}

/// What an authoritative update led to.
#[derive(Clone, Copy, Debug, PartialEq, Eq, Structural)]
pub enum Reconciliation {
    /// Not predicting, or an update for a tick no later than one already
    /// applied: ignored.
    Ignored,
    /// The prediction at that tick was close enough: only the confirmed
    /// state changed.
    Confirmed,
    /// The prediction diverged: the state was reset and this many ticks were
    /// simulated again.
    RolledBack { steps: u16 },
    /// The tick lies outside the history: prediction restarts from the
    /// authoritative state.
    Resynced,
}

/// Prediction state of one entity.
pub struct Predictor {
    pub phase: PredictionPhase,
    pub history: Vec<HistoryEntry>,
    pub cap: usize,
    pub confirmed: Vec<i64>,
    pub confirmed_tick: Option<u16>,
    pub tests: Vec<RollbackTest>,
}

impl Predictor {
    pub open spec fn wf<S: Simulation>(&self, sim: &S) -> bool {
        &&& 0 < self.cap <= 32768
        &&& self.history@.len() <= self.cap
        &&& self.phase == PredictionPhase::Predicting ==> self.history@.len() > 0
        &&& chained(sim, self.history@)
    }

    /// Tick of the newest prediction.
    pub open spec fn tick(&self) -> u16 {
        self.history@.last().tick
    }

    /// The newest predicted state.
    pub open spec fn current(&self) -> Seq<i64> {
        self.history@.last().state@
    }

    /// An entity waiting for its first authoritative state, that keeps up to
    /// `cap` ticks of history and tests each component with `tests`.
    pub fn new(cap: usize, tests: Vec<RollbackTest>) -> (r: Predictor)
        requires
            0 < cap <= 32768,
        ensures
            r.phase == PredictionPhase::AwaitingInitial,
            r.history@.len() == 0,
            r.cap == cap,
            r.tests@ == tests@,
            r.confirmed_tick is None,
    {
        Predictor {
            phase: PredictionPhase::AwaitingInitial,
            history: Vec::new(),
            cap,
            confirmed: Vec::new(),
            confirmed_tick: None,
            tests,
        }
    }

    /// The first authoritative state arrived: prediction starts from it.
    pub fn start<S: Simulation>(&mut self, sim: &S, tick: u16, state: Vec<i64>)
        requires
            old(self).wf(sim),
            old(self).phase == PredictionPhase::AwaitingInitial,
        ensures
            final(self).wf(sim),
            final(self).phase == PredictionPhase::Predicting,
            final(self).history@.len() == 1,
            final(self).tick() == tick,
            final(self).current() == state@,
            final(self).confirmed@ == state@,
            final(self).confirmed_tick == Some(tick),
            final(self).cap == old(self).cap,
            final(self).tests@ == old(self).tests@,
    {
        let confirmed = copy_state(&state);
        let mut h: Vec<HistoryEntry> = Vec::new();
        h.push(HistoryEntry { tick, state, input: Vec::new() });
        self.history = h;
        self.confirmed = confirmed;
        self.confirmed_tick = Some(tick);
        self.phase = PredictionPhase::Predicting;
    }

    /// One tick of forward prediction under `input`; the oldest entry is
    /// dropped when the history is full.
    pub fn predict<S: Simulation>(&mut self, sim: &S, input: Vec<u8>)
        requires
            old(self).wf(sim),
            old(self).phase == PredictionPhase::Predicting,
        ensures
            final(self).wf(sim),
            final(self).phase == PredictionPhase::Predicting,
            final(self).tick() == tick_offset(old(self).tick(), 1),
            final(self).current() == sim.step_spec(old(self).current(), input@),
            final(self).history@.last().input@ == input@,
            final(self).history@.len() == if old(self).history@.len() == old(self).cap {
                old(self).cap as nat
            } else {
                old(self).history@.len() + 1
            },
            final(self).cap == old(self).cap,
            final(self).tests@ == old(self).tests@,
            final(self).confirmed == old(self).confirmed,
            final(self).confirmed_tick == old(self).confirmed_tick,
    {
        let last = self.history.len() - 1;
        let next_state = sim.step(&self.history[last].state, &input);
        let next_tick = add_ticks(self.history[last].tick, 1);
        let ghost h0 = self.history@;
        self.history.push(HistoryEntry { tick: next_tick, state: next_state, input });
        assert(chained(sim, self.history@)) by {
            assert forall|j: int| 0 < j < self.history@.len() implies {
                &&& (#[trigger] self.history@[j]).tick == tick_offset(self.history@[j - 1].tick, 1)
                &&& self.history@[j].state@ == sim.step_spec(self.history@[j - 1].state@, self.history@[j].input@)
            } by {
                if j < h0.len() {
                    assert(self.history@[j] == h0[j]);
                    assert(self.history@[j - 1] == h0[j - 1]);
                }
            }
        }
        if self.history.len() > self.cap {
            let ghost h1 = self.history@;
            self.history.remove(0);
            assert(chained(sim, self.history@)) by {
                assert forall|j: int| 0 < j < self.history@.len() implies {
                    &&& (#[trigger] self.history@[j]).tick == tick_offset(self.history@[j - 1].tick, 1)
                    &&& self.history@[j].state@ == sim.step_spec(self.history@[j - 1].state@, self.history@[j].input@)
                } by {
                    assert(self.history@[j] == h1[j + 1]);
                    assert(self.history@[j - 1] == h1[j]);
                }
            }
        }
    }


    /// Applies the authoritative state `auth` of tick `auth_tick`. An update
    /// not newer than the last one applied is ignored. Otherwise it becomes
    /// the confirmed state, history before its tick is dropped, and: when
    /// its tick is outside the history, prediction restarts from it; when
    /// the prediction at its tick passes every component's test, nothing else changes;
    /// otherwise the state at its tick is reset to it and every later tick is
    /// simulated again under its recorded input.
    #[verifier::rlimit(60)]
    pub fn reconcile<S: Simulation>(&mut self, sim: &S, auth_tick: u16, auth: Vec<i64>) -> (r: Reconciliation)
        requires
            old(self).wf(sim),
        ensures
            final(self).wf(sim),
            final(self).cap == old(self).cap,
            final(self).tests@ == old(self).tests@,
            final(self).phase == old(self).phase,
            (old(self).phase != PredictionPhase::Predicting || (old(self).confirmed_tick matches Some(c)
                && tick_diff(auth_tick, c) <= 0)) <==> r == Reconciliation::Ignored,
            r == Reconciliation::Ignored ==> final(self).history@ == old(self).history@
                && final(self).confirmed@ == old(self).confirmed@
                && final(self).confirmed_tick == old(self).confirmed_tick,
            r != Reconciliation::Ignored ==> final(self).confirmed@ == auth@
                && final(self).confirmed_tick == Some(auth_tick),
            ({
                let h = old(self).history@;
                let idx = tick_diff(auth_tick, h[0].tick);
                r != Reconciliation::Ignored ==> {
                    &&& (idx < 0 || idx >= h.len()) <==> r == Reconciliation::Resynced
                    &&& r == Reconciliation::Resynced ==> final(self).history@.len() == 1
                        && final(self).tick() == auth_tick && final(self).current() == auth@
                    &&& r == Reconciliation::Confirmed ==> !diverges(h[idx].state@, auth@, old(self).tests@)
                        && final(self).history@ == h.subrange(idx, h.len() as int)
                    &&& r is RolledBack ==> diverges(h[idx].state@, auth@, old(self).tests@)
                    &&& r matches Reconciliation::RolledBack { steps } ==> {
                        &&& steps == h.len() - 1 - idx
                        &&& steps == tick_diff(old(self).tick(), auth_tick)
                        &&& final(self).history@.len() == h.len() - idx
                        &&& final(self).tick() == old(self).tick()
                        &&& final(self).current() == replay(sim, auth@, inputs_of(h.subrange(idx + 1, h.len() as int)))
                        &&& forall|k: int| 0 <= k < final(self).history@.len() ==> {
                            &&& (#[trigger] final(self).history@[k]).tick == h[idx + k].tick
                            &&& final(self).history@[k].input@ == h[idx + k].input@
                            &&& final(self).history@[k].state@ == replay(sim, auth@, inputs_of(h.subrange(idx + 1, idx + k + 1)))
                        }
                    }
                }
            }),
    {
        if self.phase != PredictionPhase::Predicting {
            return Reconciliation::Ignored;
        }
        match self.confirmed_tick {
            Some(c) => if sub_ticks(auth_tick, c) <= 0 {
                return Reconciliation::Ignored;
            },
            None => {},
        }
        let ghost h = self.history@;
        proof {
            lemma_chain_ticks(sim, h);
        }
        let len = self.history.len();
        let idx = sub_ticks(auth_tick, self.history[0].tick);
        self.confirmed = copy_state(&auth);
        self.confirmed_tick = Some(auth_tick);
        if idx < 0 || idx as usize >= len {
            let mut fresh: Vec<HistoryEntry> = Vec::new();
            fresh.push(HistoryEntry { tick: auth_tick, state: auth, input: Vec::new() });
            self.history = fresh;
            return Reconciliation::Resynced;
        }
        let idx = idx as usize;
        proof {
            crate::tick::lemma_tick_offset_diff(auth_tick, h[0].tick);
        }
        assert(h[idx as int].tick == auth_tick);
        // Drop the entries before the authoritative tick.
        let mut dropped: usize = 0;
        while dropped < idx
            invariant
                dropped <= idx < len == h.len(),
                self.history@ == h.subrange(dropped as int, len as int),
                self.cap == old(self).cap,
                self.tests@ == old(self).tests@,
                self.phase == old(self).phase,
                self.confirmed@ == auth@,
                self.confirmed_tick == Some(auth_tick),
            decreases idx - dropped,
        {
            self.history.remove(0);
            assert(self.history@ =~= h.subrange(dropped + 1, len as int));
            dropped = dropped + 1;
        }
        let ghost t = self.history@;
        assert(t =~= h.subrange(idx as int, len as int));
        assert(chained(sim, t)) by {
            assert forall|j: int| 0 < j < t.len() implies {
                &&& (#[trigger] t[j]).tick == tick_offset(t[j - 1].tick, 1)
                &&& t[j].state@ == sim.step_spec(t[j - 1].state@, t[j].input@)
            } by {
                assert(t[j] == h[idx + j]);
                assert(t[j - 1] == h[idx + j - 1]);
            }
        }
        if !should_rollback(&self.history[0].state, &auth, &self.tests) {
            return Reconciliation::Confirmed;
        }
        // Reset the authoritative tick and replay every later one.
        let n = self.history.len();
        let mut e0 = self.history.remove(0);
        let mut s = copy_state(&auth);
        e0.state = auth;
        self.history.insert(0, e0);
        assert(inputs_of(h.subrange(idx + 1, idx + 1)) =~= Seq::<Seq<u8>>::empty());
        let mut j: usize = 1;
        while j < n
            invariant
                1 <= j <= n == t.len(),
                idx < len == h.len(),
                n == len - idx,
                self.history@.len() == n,
                self.cap == old(self).cap,
                self.tests@ == old(self).tests@,
                self.phase == old(self).phase,
                self.confirmed@ == auth@,
                self.confirmed_tick == Some(auth_tick),
                t =~= h.subrange(idx as int, len as int),
                forall|k: int| 0 <= k < n ==> (#[trigger] self.history@[k]).tick == t[k].tick
                    && self.history@[k].input@ == t[k].input@,
                forall|k: int| j <= k < n ==> #[trigger] self.history@[k] == t[k],
                forall|k: int| 0 <= k < j ==> (#[trigger] self.history@[k]).state@ == replay(
                    sim,
                    auth@,
                    inputs_of(h.subrange(idx + 1, idx + k + 1)),
                ),
                s@ == self.history@[j - 1].state@,
                chained(sim, t),
            decreases n - j,
        {
            let next = sim.step(&s, &self.history[j].input);
            let ghost prev_inputs = inputs_of(h.subrange(idx + 1, idx + j));
            assert(inputs_of(h.subrange(idx + 1, idx + j + 1)).drop_last() =~= prev_inputs);
            assert(inputs_of(h.subrange(idx + 1, idx + j + 1)).last() == t[j as int].input@);
            let ghost before = self.history@;
            let mut e = self.history.remove(j);
            e.state = copy_state(&next);
            self.history.insert(j, e);
            assert(self.history@ =~= before.update(j as int, e));
            s = next;
            j = j + 1;
        }
        proof {
            assert(chained(sim, self.history@)) by {
                assert forall|k: int| 0 < k < self.history@.len() implies {
                    &&& (#[trigger] self.history@[k]).tick == tick_offset(self.history@[k - 1].tick, 1)
                    &&& self.history@[k].state@ == sim.step_spec(self.history@[k - 1].state@, self.history@[k].input@)
                } by {
                    assert(inputs_of(h.subrange(idx + 1, idx + k + 1)).drop_last() =~= inputs_of(h.subrange(idx + 1, idx + k)));
                    assert(t[k] == h[idx + k]);
                }
            }
            assert(h.subrange(idx + 1, idx + n as int) =~= h.subrange(idx + 1, h.len() as int));
            let b = h[0].tick as nat;
            crate::tick::lemma_tick_diff_unwrapped((b + (len - 1)) as nat, (b + idx) as nat);
        }
        Reconciliation::RolledBack { steps: (n - 1) as u16 }
    }

    /// The entity was despawned on the server: its prediction ends.
    pub fn despawn(&mut self)
        ensures
            final(self).phase == PredictionPhase::Despawned,
            final(self).history@.len() == 0,
            final(self).cap == old(self).cap,
            final(self).tests@ == old(self).tests@,
    {
        self.phase = PredictionPhase::Despawned;
        self.history = Vec::new();
    }
}

/// Bound on each coordinate of `ScaledMove`'s world.
pub const WORLD_LIMIT: i64 = 1_099_511_627_776;

/// A simple game step: component `k` moves by `speed` times the signed
/// byte `k` of the input (zero where the input is shorter), and stays within
/// plus or minus `WORLD_LIMIT`.
pub struct ScaledMove {
    pub speed: i64,
}

/// Byte `k` of `input` read as a signed number, or zero past its end.
pub open spec fn signed_byte(input: Seq<u8>, k: int) -> int {
    if k < input.len() {
        if input[k] < 128 { input[k] as int } else { input[k] - 256 }
    } else {
        0
    }
}

pub open spec fn clamp_world(v: int) -> i64 {
    if v > WORLD_LIMIT as int { WORLD_LIMIT } else if v < -(WORLD_LIMIT as int) { (-WORLD_LIMIT) as i64 } else { v as i64 }
}

impl Simulation for ScaledMove {
    open spec fn step_spec(&self, state: Seq<i64>, input: Seq<u8>) -> Seq<i64> {
        Seq::new(state.len(), |k: int| clamp_world(state[k] + signed_byte(input, k) * self.speed))
    }

    fn step(&self, state: &Vec<i64>, input: &Vec<u8>) -> (r: Vec<i64>) {
        let mut out: Vec<i64> = Vec::new();
        let mut k: usize = 0;
        while k < state.len()
            invariant
                k <= state@.len(),
                out@.len() == k,
                forall|i: int| 0 <= i < k ==> out@[i] == clamp_world(state@[i] + signed_byte(input@, i) * self.speed),
            decreases state@.len() - k,
        {
            let d: i128 = if k < input.len() {
                let b = input[k];
                if b < 128 { b as i128 } else { b as i128 - 256 }
            } else {
                0
            };
            assert(d == signed_byte(input@, k as int));
            assert(-128 <= d <= 127);
            let sp: i128 = self.speed as i128;
            assert(-0x1000_0000_0000_0000_0000 <= d * sp <= 0x1000_0000_0000_0000_0000) by (nonlinear_arith)
                requires
                    -128 <= d <= 127,
                    -0x8000_0000_0000_0000 <= sp <= 0x7fff_ffff_ffff_ffff;
            let prod: i128 = d * sp;
            let v: i128 = state[k] as i128 + prod;
            let c: i64 = if v > WORLD_LIMIT as i128 {
                WORLD_LIMIT
            } else if v < -(WORLD_LIMIT as i128) {
                -WORLD_LIMIT
            } else {
                v as i64
            };
            out.push(c);
            k = k + 1;
        }
        assert(out@ =~= self.step_spec(state@, input@));
        out
    }
}

/// In a chained history, entry `k` is the replay of the first entry's
/// state under the inputs of the entries after it, up to `k`.
pub proof fn lemma_chain_replays<S: Simulation>(sim: &S, h: Seq<HistoryEntry>, k: int)
    requires
        chained(sim, h),
        0 <= k < h.len(),
    ensures
        h[k].state@ == replay(sim, h[0].state@, inputs_of(h.subrange(1, k + 1))),
    decreases k,
{
    if k == 0 {
        assert(inputs_of(h.subrange(1, 1)) =~= Seq::<Seq<u8>>::empty());
    } else {
        lemma_chain_replays(sim, h, k - 1);
        assert(inputs_of(h.subrange(1, k + 1)).drop_last() =~= inputs_of(h.subrange(1, k)));
    }
}

/// Prediction converges: when the server simulates from the same state under
/// the same inputs with the same deterministic step, its authoritative state
/// at any tick of the history equals the prediction there, so no rollback
/// follows, whatever the components' tests.
pub proof fn lemma_prediction_converges<S: Simulation>(
    sim: &S,
    h: Seq<HistoryEntry>,
    k: int,
    server_state: Seq<i64>,
    tests: Seq<RollbackTest>,
)
    requires
        chained(sim, h),
        0 <= k < h.len(),
        server_state == replay(sim, h[0].state@, inputs_of(h.subrange(1, k + 1))),
    ensures
        !diverges(h[k].state@, server_state, tests),
{
    lemma_chain_replays(sim, h, k);
    assert forall|i: int| 0 <= i < server_state.len() implies !#[trigger] component_diverges(test_at(tests, i), h[k].state@[i], server_state[i]) by {
    }
}

/// The value shown `step` ticks into a correction of `total` ticks that
/// blends from the value shown before a rollback, `from`, to the corrected
/// one, `to`: linear, rounded toward `from`, and `to` itself once the
/// correction is over.
pub open spec fn correction_at(from: i64, to: i64, step: u32, total: u32) -> int {
    if step >= total {
        to as int
    } else {
        from + crate::interpolation::div_trunc((to - from) * step, total as int)
    }
}

/// Computes `correction_at`; the result lies between `from` and `to`.
pub fn corrected_value(from: i64, to: i64, step: u32, total: u32) -> (r: i64)
    ensures
        r as int == correction_at(from, to, step, total),
        from <= to ==> from <= r <= to,
        to < from ==> to <= r <= from,
{
    if step >= total {
        return to;
    }
    let dv: i128 = to as i128 - from as i128;
    let st: i128 = step as i128;
    let tt: i128 = total as i128;
    assert(-0x1_0000_0000_0000_0000 * 0x1_0000_0000 <= dv * st <= 0x1_0000_0000_0000_0000 * 0x1_0000_0000) by (nonlinear_arith)
        requires
            -0x1_0000_0000_0000_0000 <= dv <= 0x1_0000_0000_0000_0000,
            0 <= st <= 0x1_0000_0000;
    let num: i128 = dv * st;
    let q: i128 = if num >= 0 { num / tt } else { -((-num) / tt) };
    proof {
        if dv >= 0 {
            assert(0 <= dv * st <= dv * tt) by (nonlinear_arith)
                requires 0 <= st <= tt, dv >= 0;
            vstd::arithmetic::div_mod::lemma_div_is_ordered(0, dv * st, tt as int);
            vstd::arithmetic::div_mod::lemma_div_is_ordered(dv * st, dv * tt, tt as int);
            vstd::arithmetic::div_mod::lemma_div_multiples_vanish(dv as int, tt as int);
            assert(tt * dv == dv * tt) by (nonlinear_arith);
        } else {
            let e = -dv;
            assert(0 <= e * st <= e * tt) by (nonlinear_arith)
                requires 0 <= st <= tt, e >= 0;
            assert(-(dv * st) == e * st) by (nonlinear_arith)
                requires e == -dv;
            vstd::arithmetic::div_mod::lemma_div_is_ordered(0, e * st, tt as int);
            vstd::arithmetic::div_mod::lemma_div_is_ordered(e * st, e * tt, tt as int);
            vstd::arithmetic::div_mod::lemma_div_multiples_vanish(e as int, tt as int);
            assert(tt * e == e * tt) by (nonlinear_arith);
        }
    }
    (from as i128 + q) as i64
}

} // verus!
