//! Receive sides of the logical channels: the sequenced channel keeps only
//! the newest payload, the ordered reliable channel hands messages on in
//! the order they were sent, holding early arrivals until the gap closes.
use vstd::prelude::*;
use crate::tick::{sub_ticks, tick_diff};

verus! {

/// The four delivery modes of a channel.
#[derive(Clone, Copy, Debug, PartialEq, Eq, Structural)]
pub enum ChannelMode {
    UnorderedUnreliable,
    UnorderedReliable,
    OrderedReliable,
    SequencedUnreliable,
}

impl ChannelMode {
    /// Whether the mode resends lost messages.
    pub fn is_reliable(&self) -> (r: bool)
        ensures
            r == (*self == ChannelMode::UnorderedReliable || *self == ChannelMode::OrderedReliable),
    {
        match self {
            ChannelMode::UnorderedReliable | ChannelMode::OrderedReliable => true,
            _ => false,
        }
    }
}

/// Receive side of a sequenced channel: a payload is taken only when its
/// sequence is newer, in wrapping order, than every one taken before.
pub struct SequencedReceiver {
    pub latest: Option<u16>,
}

/// Whether a payload numbered `seq` is taken after `latest`.
pub open spec fn sequenced_accepts(latest: Option<u16>, seq: u16) -> bool {
    match latest {
        None => true,
        Some(l) => tick_diff(seq, l) > 0,
    }
}

impl SequencedReceiver {
    pub fn new() -> (r: SequencedReceiver)
        ensures
            r.latest is None,
    {
        SequencedReceiver { latest: None }
    }

    /// Offers the payload numbered `seq`; returns whether it is taken.
    pub fn receive(&mut self, seq: u16) -> (r: bool)
        ensures
            r == sequenced_accepts(old(self).latest, seq),
            final(self).latest == (if r { Some(seq) } else { old(self).latest }),
    {
        let take = match self.latest {
            None => true,
            Some(l) => sub_ticks(seq, l) > 0,
        };
        if take {
            self.latest = Some(seq);
        }
        take
    }
}

/// On a sequenced channel, once a payload is taken, one that is not newer
/// than it is dropped.
pub proof fn lemma_sequenced_drops_older(latest: Option<u16>, newer: u16, older: u16)
    requires
        sequenced_accepts(latest, newer),
        tick_diff(older, newer) <= 0,
    ensures
        !sequenced_accepts(Some(newer), older),
{
}

/// Number of messages at the front of `slots` that have arrived.
pub open spec fn arrived_run(slots: Seq<Option<Seq<u8>>>) -> nat
    decreases slots.len(),
{
    if slots.len() == 0 || slots[0] is None {
        0
    } else {
        1 + arrived_run(slots.drop_first())
    }
}

/// Receive side of an ordered reliable channel. `next` is the number of the
/// next message to hand on; `slots[i]` holds message `next + 1 + i` if it
/// has arrived early.
pub struct OrderedReceiver {
    pub next: u64,
    pub slots: Vec<Option<Vec<u8>>>,
    pub window: usize,
}

pub struct OrderedView {
    pub next: nat,
    pub slots: Seq<Option<Seq<u8>>>,
}

pub open spec fn slot_view(o: Option<Vec<u8>>) -> Option<Seq<u8>> {
    match o {
        None => None,
        Some(v) => Some(v@),
    }
}

/// What the receiver holds and hands on after message `seq` with `payload`
/// arrives: a message already handed on or already held is a duplicate; one
/// too far ahead of the window is dropped for the sender to resend; the next
/// expected one is handed on together with the run of held messages after it.
pub open spec fn ordered_step(v: OrderedView, window: nat, seq: nat, payload: Seq<u8>) -> (OrderedView, Seq<Seq<u8>>) {
    if seq < v.next {
        (v, Seq::empty())
    } else if seq == v.next {
        let k = arrived_run(v.slots);
        (
            OrderedView {
                next: v.next + 1 + k,
                slots: if k < v.slots.len() { v.slots.skip(k + 1int) } else { Seq::empty() },
            },
            seq![payload] + v.slots.take(k as int).map_values(|o: Option<Seq<u8>>| o->Some_0),
        )
    } else {
        let off = seq - v.next - 1;
        if off >= window {
            (v, Seq::empty())
        } else if off < v.slots.len() {
            if v.slots[off] is Some {
                (v, Seq::empty())
            } else {
                (OrderedView { next: v.next, slots: v.slots.update(off, Some(payload)) }, Seq::empty())
            }
        } else {
            (
                OrderedView {
                    next: v.next,
                    slots: v.slots + Seq::new((off - v.slots.len()) as nat, |i: int| None::<Seq<u8>>)
                        + seq![Some(payload)],
                },
                Seq::empty(),
            )
        }
    }
}

impl View for OrderedReceiver {
    type V = OrderedView;

    open spec fn view(&self) -> OrderedView {
        OrderedView { next: self.next as nat, slots: self.slots@.map_values(|o: Option<Vec<u8>>| slot_view(o)) }
    }
}

pub proof fn lemma_arrived_run_bound(slots: Seq<Option<Seq<u8>>>)
    ensures
        arrived_run(slots) <= slots.len(),
        forall|i: int| 0 <= i < arrived_run(slots) ==> slots[i] is Some,
        arrived_run(slots) < slots.len() ==> slots[arrived_run(slots) as int] is None,
    decreases slots.len(),
{
    if slots.len() > 0 && slots[0] is Some {
        lemma_arrived_run_bound(slots.drop_first());
        assert forall|i: int| 0 <= i < arrived_run(slots) implies slots[i] is Some by {
            if i > 0 {
                assert(slots[i] == slots.drop_first()[i - 1]);
            }
        }
    }
}

impl OrderedReceiver {
    pub open spec fn wf(&self) -> bool {
        &&& self.slots@.len() <= self.window
        &&& self.window < u64::MAX
        &&& self.next as int + self.window + 1 <= u64::MAX
    }

    /// A receiver expecting message 0 that holds at most `window` early
    /// arrivals.
    pub fn new(window: usize) -> (r: OrderedReceiver)
        requires
            window < u64::MAX,
            window + 1 <= u64::MAX,
        ensures
            r.wf(),
            r@.next == 0,
            r@.slots.len() == 0,
            r.window == window,
    {
        OrderedReceiver { next: 0, slots: Vec::new(), window }
    }

    /// Message `seq` arrived with `payload`; returns the messages handed on,
    /// in order.
    pub fn receive(&mut self, seq: u64, payload: Vec<u8>) -> (r: Vec<Vec<u8>>)
        requires
            old(self).wf(),
            old(self).next as int + old(self).window + 2 <= u64::MAX,
        ensures
            final(self).window == old(self).window,
            final(self).slots@.len() <= final(self).window,
            (final(self)@, r@.map_values(|m: Vec<u8>| m@)) == ordered_step(
                old(self)@,
                old(self).window as nat,
                seq as nat,
                payload@,
            ),
    {
        let ghost v0 = self@;
        let mut out: Vec<Vec<u8>> = Vec::new();
        if seq < self.next {
            assert(out@.map_values(|m: Vec<u8>| m@) =~= Seq::<Seq<u8>>::empty());
            return out;
        }
        if seq == self.next {
            out.push(payload);
            self.next = self.next + 1;
            let ghost k = arrived_run(v0.slots);
            proof {
                lemma_arrived_run_bound(v0.slots);
            }
            let mut done: usize = 0;
            let mut stop = false;
            while !stop && self.slots.len() > 0
                invariant
                    self.window == old(self).window,
                    done <= k,
                    v0.slots.len() == old(self).slots@.len(),
                    stop ==> done == k && k < v0.slots.len(),
                    !stop ==> self.slots@.len() == v0.slots.len() - done,
                    !stop ==> self.slots@.map_values(|o: Option<Vec<u8>>| slot_view(o)) =~= v0.slots.skip(done as int),
                    stop ==> self.slots@.map_values(|o: Option<Vec<u8>>| slot_view(o)) =~= v0.slots.skip(k + 1int),
                    self.next == v0.next + 1 + done,
                    out@.map_values(|m: Vec<u8>| m@) =~= seq![payload@] + v0.slots.take(done as int).map_values(
                        |o: Option<Seq<u8>>| o->Some_0,
                    ),
                    k <= v0.slots.len(),
                    forall|i: int| 0 <= i < k ==> v0.slots[i] is Some,
                    k < v0.slots.len() ==> v0.slots[k as int] is None,
                    old(self).next as int + old(self).window + 2 <= u64::MAX,
                    v0.slots.len() <= old(self).window,
                    v0.next == old(self).next,
                decreases self.slots@.len(),
            {
                let ghost before = self.slots@;
                let first = self.slots.remove(0);
                assert(v0.slots[done as int] == slot_view(first)) by {
                    assert(before.map_values(|o: Option<Vec<u8>>| slot_view(o))[0] == slot_view(first));
                }
                assert(self.slots@ =~= before.subrange(1, before.len() as int));
                proof {
                    let now_m = self.slots@.map_values(|o: Option<Vec<u8>>| slot_view(o));
                    let before_m = before.map_values(|o: Option<Vec<u8>>| slot_view(o));
                    let want = v0.slots.skip(done + 1int);
                    assert forall|i: int| 0 <= i < now_m.len() implies #[trigger] now_m[i] == want[i] by {
                        assert(self.slots@[i] == before[i + 1]);
                        assert(before_m[i + 1] == v0.slots.skip(done as int)[i + 1]);
                    }
                    assert(now_m =~= want);
                }
                match first {
                    Some(m) => {
                        let ghost out0 = out@;
                        out.push(m);
                        assert(v0.slots.take(done + 1) =~= v0.slots.take(done as int).push(v0.slots[done as int]));
                        assert(v0.slots[done as int]->Some_0 == m@);
                        assert(out@.map_values(|m: Vec<u8>| m@) =~= out0.map_values(|m: Vec<u8>| m@).push(m@));
                        assert(v0.slots.take(done + 1).map_values(|o: Option<Seq<u8>>| o->Some_0) =~=
                            v0.slots.take(done as int).map_values(|o: Option<Seq<u8>>| o->Some_0).push(m@));
                        assert(out@.map_values(|m: Vec<u8>| m@) =~= seq![payload@] + v0.slots.take(done + 1).map_values(
                            |o: Option<Seq<u8>>| o->Some_0,
                        ));
                        self.next = self.next + 1;
                        done = done + 1;
                    },
                    None => {
                        stop = true;
                        assert(self.slots@.map_values(|o: Option<Vec<u8>>| slot_view(o)) =~= v0.slots.skip(k + 1int));
                    },
                }
            }
            proof {
                if !stop {
                    assert(done == v0.slots.len());
                    assert(k == done);
                    assert(self.slots@.map_values(|o: Option<Vec<u8>>| slot_view(o)) =~= Seq::<Option<Seq<u8>>>::empty());
                }
            }
            return out;
        }
        let off_u = seq - self.next - 1;
        if off_u >= self.window as u64 {
            assert(out@.map_values(|m: Vec<u8>| m@) =~= Seq::<Seq<u8>>::empty());
            return out;
        }
        let off = off_u as usize;
        if off < self.slots.len() {
            assert(v0.slots[off as int] == slot_view(self.slots@[off as int]));
            let held = match &self.slots[off] {
                Some(_) => true,
                None => false,
            };
            if !held {
                self.slots.set(off, Some(payload));
                assert(self@.slots =~= v0.slots.update(off as int, Some(payload@)));
            }
        } else {
            while self.slots.len() < off
                invariant
                    self.window == old(self).window,
                    self.next == v0.next,
                    off < self.window,
                    v0.slots.len() <= self.slots@.len() <= off,
                    self.slots@.map_values(|o: Option<Vec<u8>>| slot_view(o)) =~= v0.slots + Seq::new(
                        (self.slots@.len() - v0.slots.len()) as nat,
                        |i: int| None::<Seq<u8>>,
                    ),
                decreases off - self.slots@.len(),
            {
                let ghost before = self.slots@;
                self.slots.push(None);
                assert(self.slots@.map_values(|o: Option<Vec<u8>>| slot_view(o)) =~=
                    before.map_values(|o: Option<Vec<u8>>| slot_view(o)).push(None));
                assert(Seq::new((self.slots@.len() - v0.slots.len()) as nat, |i: int| None::<Seq<u8>>) =~=
                    Seq::new((before.len() - v0.slots.len()) as nat, |i: int| None::<Seq<u8>>).push(None));
            }
            self.slots.push(Some(payload));
            assert(self@.slots =~= v0.slots + Seq::new((off - v0.slots.len()) as nat, |i: int| None::<Seq<u8>>)
                + seq![Some(payload@)]);
        }
        assert(out@.map_values(|m: Vec<u8>| m@) =~= Seq::<Seq<u8>>::empty());
        assert(self@.next == v0.next);
        out
    }
}

/// The receiver agrees with the sender's messages `sent`: it expects no
/// message beyond them, and every message it holds is the one sent under
/// that number.
pub open spec fn agrees_with(v: OrderedView, sent: Seq<Seq<u8>>) -> bool {
    &&& v.next <= sent.len()
    &&& forall|i: int|
        0 <= i < v.slots.len() && (#[trigger] v.slots[i]) is Some ==> v.next + 1 + i < sent.len()
            && v.slots[i]->Some_0 == sent[v.next + 1 + i]
}

/// Ordered reliable delivery: whatever the loss, duplication or reordering,
/// every arrival of a message the sender sent hands on exactly the sent
/// messages from the one expected next up to the new expected one, so the
/// messages handed on over time are the sent ones in send order. The
/// arrival of the message expected next always hands on at least that one.
pub proof fn lemma_ordered_delivery(v: OrderedView, window: nat, sent: Seq<Seq<u8>>, seq: nat)
    requires
        agrees_with(v, sent),
        seq < sent.len(),
    ensures
        agrees_with(ordered_step(v, window, seq, sent[seq as int]).0, sent),
        ordered_step(v, window, seq, sent[seq as int]).0.next >= v.next,
        ordered_step(v, window, seq, sent[seq as int]).1 == sent.subrange(
            v.next as int,
            ordered_step(v, window, seq, sent[seq as int]).0.next as int,
        ),
        seq == v.next ==> ordered_step(v, window, seq, sent[seq as int]).0.next > v.next,
{
    let payload = sent[seq as int];
    let (v2, out) = ordered_step(v, window, seq, payload);
    if seq < v.next {
        assert(sent.subrange(v.next as int, v.next as int) =~= Seq::<Seq<u8>>::empty());
    } else if seq == v.next {
        let k = arrived_run(v.slots);
        lemma_arrived_run_bound(v.slots);
        if k > 0 {
            assert(v.slots[k - 1] is Some);
        }
        assert(v2.next <= sent.len());
        assert(out =~= sent.subrange(v.next as int, v2.next as int)) by {
            assert forall|i: int| 0 <= i < out.len() implies out[i] == sent.subrange(v.next as int, v2.next as int)[i] by {
                if i > 0 {
                    assert(v.slots[i - 1] is Some);
                }
            }
        }
        if k < v.slots.len() {
            assert forall|i: int|
                0 <= i < v2.slots.len() && (#[trigger] v2.slots[i]) is Some implies v2.next + 1 + i < sent.len()
                    && v2.slots[i]->Some_0 == sent[v2.next + 1 + i] by {
                assert(v2.slots[i] == v.slots[k + 1 + i]);
            }
        }
    } else {
        let off = seq - v.next - 1;
        assert(sent.subrange(v.next as int, v.next as int) =~= Seq::<Seq<u8>>::empty());
        if off < window && off >= v.slots.len() {
            assert forall|i: int|
                0 <= i < v2.slots.len() && (#[trigger] v2.slots[i]) is Some implies v2.next + 1 + i < sent.len()
                    && v2.slots[i]->Some_0 == sent[v2.next + 1 + i] by {
                if i < v.slots.len() {
                    assert(v2.slots[i] == v.slots[i]);
                } else if i < off {
                    assert(v2.slots[i] is None);
                }
            }
        }
    }
}

/// Number of leading `true`s in `seen`.
pub open spec fn seen_run(seen: Seq<bool>) -> nat
    decreases seen.len(),
{
    if seen.len() == 0 || !seen[0] {
        0
    } else {
        1 + seen_run(seen.drop_first())
    }
}

proof fn lemma_seen_run_bound(seen: Seq<bool>)
    ensures
        seen_run(seen) <= seen.len(),
        forall|i: int| 0 <= i < seen_run(seen) ==> seen[i],
        seen_run(seen) < seen.len() ==> !seen[seen_run(seen) as int],
    decreases seen.len(),
{
    if seen.len() > 0 && seen[0] {
        lemma_seen_run_bound(seen.drop_first());
        assert forall|i: int| 0 <= i < seen_run(seen) implies seen[i] by {
            if i > 0 {
                assert(seen[i] == seen.drop_first()[i - 1]);
            }
        }
    }
}

/// Receive side of an unordered reliable channel: every message is handed
/// on when it first arrives, and again never. `next` is the lowest number not
/// yet received; `seen[i]` tells whether message `next + 1 + i` has been.
pub struct UnorderedReceiver {
    pub next: u64,
    pub seen: Vec<bool>,
    pub window: usize,
}

/// Whether message `seq` was received already.
pub open spec fn already_seen(next: nat, seen: Seq<bool>, seq: nat) -> bool {
    seq < next || (next < seq && seq - next - 1 < seen.len() && seen[seq - next - 1])
}

/// The receiver after message `seq` first arrives: the lowest missing number
/// moves past every message received in a row.
pub open spec fn unordered_after(next: nat, seen: Seq<bool>, seq: nat) -> (nat, Seq<bool>) {
    if seq == next {
        let k = seen_run(seen);
        (next + 1 + k, if k < seen.len() { seen.skip(k + 1int) } else { Seq::empty() })
    } else {
        let off = seq - next - 1;
        if off < seen.len() {
            (next, seen.update(off, true))
        } else {
            (next, seen + Seq::new((off - seen.len()) as nat, |i: int| false) + seq![true])
        }
    }
}

impl UnorderedReceiver {
    pub open spec fn wf(&self) -> bool {
        &&& self.seen@.len() <= self.window
        &&& self.next as int + self.window + 2 <= u64::MAX
    }

    pub fn new(window: usize) -> (r: UnorderedReceiver)
        requires
            window + 2 <= u64::MAX,
        ensures
            r.wf(),
            r.next == 0,
            r.seen@.len() == 0,
            r.window == window,
    {
        UnorderedReceiver { next: 0, seen: Vec::new(), window }
    }

    /// Message `seq` arrived; returns whether to hand it on. A duplicate, or
    /// one too far ahead of the window (left for the sender to resend), is
    /// not.
    pub fn receive(&mut self, seq: u64) -> (r: bool)
        requires
            old(self).wf(),
            old(self).next as int + old(self).window + 3 <= u64::MAX,
        ensures
            final(self).window == old(self).window,
            final(self).seen@.len() <= final(self).window,
            r == (!already_seen(old(self).next as nat, old(self).seen@, seq as nat) && (seq <= old(self).next
                || seq - old(self).next - 1 < old(self).window)),
            r ==> (final(self).next as nat, final(self).seen@) == unordered_after(
                old(self).next as nat,
                old(self).seen@,
                seq as nat,
            ),
            !r ==> final(self).next == old(self).next && final(self).seen@ == old(self).seen@,
    {
        if seq < self.next {
            return false;
        }
        let ghost s0 = self.seen@;
        if seq == self.next {
            proof {
                lemma_seen_run_bound(s0);
            }
            let ghost k = seen_run(s0);
            self.next = self.next + 1;
            let mut done: usize = 0;
            let mut stop = false;
            while !stop && self.seen.len() > 0
                invariant
                    self.window == old(self).window,
                    done <= k <= s0.len(),
                    s0.len() <= old(self).window,
                    s0 == old(self).seen@,
                    forall|i: int| 0 <= i < k ==> s0[i],
                    k < s0.len() ==> !s0[k as int],
                    stop ==> done == k && k < s0.len() && self.seen@ =~= s0.skip(k + 1int),
                    !stop ==> self.seen@ =~= s0.skip(done as int),
                    self.next == old(self).next + 1 + done,
                    old(self).next as int + old(self).window + 3 <= u64::MAX,
                decreases self.seen@.len(),
            {
                let first = self.seen.remove(0);
                assert(first == s0[done as int]);
                if first {
                    self.next = self.next + 1;
                    done = done + 1;
                } else {
                    stop = true;
                }
            }
            proof {
                if !stop {
                    assert(done == s0.len());
                }
            }
            return true;
        }
        let off_u = seq - self.next - 1;
        if off_u >= self.window as u64 {
            return false;
        }
        let off = off_u as usize;
        if off < self.seen.len() {
            if self.seen[off] {
                return false;
            }
            self.seen.set(off, true);
        } else {
            while self.seen.len() < off
                invariant
                    self.window == old(self).window,
                    self.next == old(self).next,
                    off < self.window,
                    s0.len() <= self.seen@.len() <= off,
                    self.seen@ =~= s0 + Seq::new((self.seen@.len() - s0.len()) as nat, |i: int| false),
                decreases off - self.seen@.len(),
            {
                self.seen.push(false);
            }
            self.seen.push(true);
        }
        true
    }
}

/// Unordered reliable delivery hands on each message at most once: after it
/// first arrives it counts as seen, so a later copy is dropped.
pub proof fn lemma_unordered_once(next: nat, seen: Seq<bool>, seq: nat)
    requires
        !already_seen(next, seen, seq),
    ensures
        already_seen(unordered_after(next, seen, seq).0, unordered_after(next, seen, seq).1, seq),
{
    let (n2, s2) = unordered_after(next, seen, seq);
    if seq == next {
        lemma_seen_run_bound(seen);
    } else {
        let off = seq - next - 1;
        if off >= seen.len() {
            assert(s2[off as int] == true);
        }
    }
}

/// The receiver state and everything handed on after the arrivals `arr`
/// (message numbers, each carrying the payload that was sent under it),
/// starting from `v`.
pub open spec fn ordered_run(v: OrderedView, window: nat, sent: Seq<Seq<u8>>, arr: Seq<nat>) -> (OrderedView, Seq<Seq<u8>>)
    decreases arr.len(),
{
    if arr.len() == 0 {
        (v, Seq::empty())
    } else {
        let (v1, d1) = ordered_run(v, window, sent, arr.drop_last());
        let (v2, d2) = ordered_step(v1, window, arr.last(), sent[arr.last() as int]);
        (v2, d1 + d2)
    }
}

/// Message `s` has been handed on, or is held.
pub open spec fn has_arrived(v: OrderedView, s: nat) -> bool {
    s < v.next || (s > v.next && s - v.next - 1 < v.slots.len() && v.slots[s - v.next - 1] is Some)
}

proof fn lemma_step_keeps_arrived(v: OrderedView, window: nat, seq: nat, payload: Seq<u8>, s: nat)
    requires
        has_arrived(v, s) || s == seq,
        seq > v.next ==> seq - v.next - 1 < window,
    ensures
        has_arrived(ordered_step(v, window, seq, payload).0, s),
{
    let v2 = ordered_step(v, window, seq, payload).0;
    if seq == v.next {
        lemma_arrived_run_bound(v.slots);
        let k = arrived_run(v.slots);
        if s > v.next && s != seq {
            let i = s - v.next - 1;
            if i > k {
                assert(v2.slots[i - k - 1] == v.slots[i]);
            }
        }
    } else if seq > v.next {
        let off = seq - v.next - 1;
        if off >= v.slots.len() && s > v.next && s != seq {
            assert(v2.slots[s - v.next - 1] == v.slots[s - v.next - 1]);
        }
    }
}

/// Ordered reliable delivery over a whole run. From a fresh receiver, with
/// each arrival one of the sent messages (lost, duplicated or reordered at
/// will): what has been handed on is always the sent messages from the
/// first, in send order, with no gap and no repeat; and once every message
/// has arrived at least once, all of them have been handed on.
pub proof fn lemma_ordered_run(window: nat, sent: Seq<Seq<u8>>, arr: Seq<nat>)
    requires
        sent.len() <= window,
        forall|i: int| 0 <= i < arr.len() ==> arr[i] < sent.len(),
    ensures
        ({
            let (v, d) = ordered_run(OrderedView { next: 0, slots: Seq::empty() }, window, sent, arr);
            &&& agrees_with(v, sent)
            &&& d == sent.subrange(0, v.next as int)
            &&& forall|i: int| 0 <= i < arr.len() ==> has_arrived(v, #[trigger] arr[i])
            &&& (forall|s: nat| s < sent.len() ==> #[trigger] arr.contains(s)) ==> v.next == sent.len()
        }),
    decreases arr.len(),
{
    let v0 = OrderedView { next: 0, slots: Seq::empty() };
    let (v, d) = ordered_run(v0, window, sent, arr);
    if arr.len() == 0 {
        assert(sent.subrange(0, 0) =~= Seq::<Seq<u8>>::empty());
        if sent.len() > 0 {
            assert(!arr.contains(0nat));
        }
    } else {
        let prev = arr.drop_last();
        assert(forall|i: int| 0 <= i < prev.len() ==> prev[i] == arr[i]);
        lemma_ordered_run(window, sent, prev);
        let (v1, d1) = ordered_run(v0, window, sent, prev);
        let seq = arr.last();
        lemma_ordered_delivery(v1, window, sent, seq);
        let (v2, d2) = ordered_step(v1, window, seq, sent[seq as int]);
        assert(d1 + d2 =~= sent.subrange(0, v2.next as int));
        assert forall|i: int| 0 <= i < arr.len() implies has_arrived(v, #[trigger] arr[i]) by {
            if i < prev.len() {
                assert(arr[i] == prev[i]);
                assert(has_arrived(v1, prev[i]));
            }
            lemma_step_keeps_arrived(v1, window, seq, sent[seq as int], arr[i]);
        }
        if forall|s: nat| s < sent.len() ==> #[trigger] arr.contains(s) {
            if v.next < sent.len() {
                assert(arr.contains(v.next));
                let i = choose|i: int| 0 <= i < arr.len() && arr[i] == v.next;
                assert(has_arrived(v, arr[i]));
            }
        }
    }
}

} // verus!
