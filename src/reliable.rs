//! Send side of the reliable channels: round-trip estimation, the
//! retransmission timeout, and the queue of messages not yet acknowledged
//! with their resend timers.
use vstd::prelude::*;

verus! {

/// Lower bound of the retransmission timeout, in microseconds.
pub const MIN_RTO_US: u64 = 20_000;
/// Upper bound of the retransmission timeout and of its back-off.
pub const MAX_RTO_US: u64 = 1_000_000;

/// Smoothed round-trip time: the first sample is taken as it is, each later
/// one moves the estimate by an eighth of the difference.
pub open spec fn rtt_after(srtt: u64, has_sample: bool, sample: u64) -> u64 {
    if !has_sample {
        sample
    } else {
        (srtt - srtt / 8 + sample / 8) as u64
    }
}

/// Retransmission timeout for a smoothed round trip `srtt`: twice it, but no
/// less than 20 ms and no more than 1 s.
pub open spec fn rto_for(srtt: u64) -> u64 {
    let twice = 2 * srtt as int;
    if twice < MIN_RTO_US { MIN_RTO_US } else if twice > MAX_RTO_US { MAX_RTO_US } else { twice as u64 }
}

/// Wait before resending a message sent `attempts` times already: the
/// timeout doubled for each resend, capped at 1 s.
pub open spec fn backoff(rto: u64, attempts: u32) -> u64
    decreases attempts,
{
    if attempts == 0 {
        if rto > MAX_RTO_US { MAX_RTO_US } else { rto }
    } else {
        let prev = backoff(rto, (attempts - 1) as u32);
        if 2 * prev > MAX_RTO_US { MAX_RTO_US } else { (2 * prev) as u64 }
    }
}

pub struct RttEstimator {
    pub srtt_us: u64,
    pub has_sample: bool,
}

impl RttEstimator {
    pub fn new() -> (r: RttEstimator)
        ensures
            !r.has_sample,
            r.srtt_us == 0,
    {
        RttEstimator { srtt_us: 0, has_sample: false }
    }

    /// Folds in the round trip measured for one acknowledged datagram.
    pub fn add_sample(&mut self, sample_us: u64)
        ensures
            final(self).has_sample,
            final(self).srtt_us == rtt_after(old(self).srtt_us, old(self).has_sample, sample_us),
    {
        if !self.has_sample {
            self.srtt_us = sample_us;
            self.has_sample = true;
        } else {
            self.srtt_us = self.srtt_us - self.srtt_us / 8 + sample_us / 8;
        }
    }

    /// The current retransmission timeout.
    pub fn rto_us(&self) -> (r: u64)
        ensures
            r == rto_for(self.srtt_us),
            MIN_RTO_US <= r <= MAX_RTO_US,
    {
        if self.srtt_us < MIN_RTO_US / 2 {
            MIN_RTO_US
        } else if self.srtt_us > MAX_RTO_US / 2 {
            MAX_RTO_US
        } else {
            2 * self.srtt_us
        }
    }
}

/// Computes `backoff(rto, attempts)`.
pub fn backoff_us(rto: u64, attempts: u32) -> (r: u64)
    ensures
        r == backoff(rto, attempts),
        r <= MAX_RTO_US,
{
    let mut b: u64 = if rto > MAX_RTO_US { MAX_RTO_US } else { rto };
    let mut i: u32 = 0;
    while i < attempts
        invariant
            i <= attempts,
            b == backoff(rto, i),
            b <= MAX_RTO_US,
        decreases attempts - i,
    {
        b = if 2 * b > MAX_RTO_US { MAX_RTO_US } else { 2 * b };
        i = i + 1;
    }
    b
}

/// A message sent and not yet acknowledged.
#[derive(Debug)]
pub struct InFlight {
    pub seq: u64,
    pub payload: Vec<u8>,
    pub last_sent_us: u64,
    pub attempts: u32,
}

/// Whether message `e` is due for resending at `now`.
pub open spec fn is_due(e: InFlight, now: u64, rto: u64) -> bool {
    now >= e.last_sent_us && now - e.last_sent_us >= backoff(rto, e.attempts)
}

/// The message after a resend at `now`.
pub open spec fn resent(e: InFlight, now: u64) -> InFlight {
    InFlight { last_sent_us: now, attempts: (e.attempts + 1) as u32, ..e }
}

/// Numbers of the messages among `q` that are due at `now`, in queue order.
pub open spec fn due_seqs(q: Seq<InFlight>, now: u64, rto: u64) -> Seq<u64>
    decreases q.len(),
{
    if q.len() == 0 {
        Seq::empty()
    } else {
        let rest = due_seqs(q.drop_last(), now, rto);
        if is_due(q.last(), now, rto) { rest.push(q.last().seq) } else { rest }
    }
}

/// Outcome of a resend pass.
#[derive(Debug)]
pub enum ResendOutcome {
    /// Sequence numbers of the messages to put on the wire again.
    Resend(Vec<u64>),
    /// A message was resent `max_retries` times without an acknowledgement:
    /// the session is to be considered lost.
    Lost,
}

/// The queue of unacknowledged messages of one reliable channel.
pub struct ReliableSender {
    pub next_seq: u64,
    pub in_flight: Vec<InFlight>,
    pub max_retries: u32,
}

impl ReliableSender {
    /// Sequence numbers in the queue rise strictly and stay below the next
    /// one to assign.
    pub open spec fn wf(&self) -> bool {
        &&& forall|i: int, j: int|
            0 <= i < j < self.in_flight@.len() ==> self.in_flight@[i].seq < self.in_flight@[j].seq
        &&& forall|i: int| 0 <= i < self.in_flight@.len() ==> self.in_flight@[i].seq < self.next_seq
    }

    pub fn new(max_retries: u32) -> (r: ReliableSender)
        ensures
            r.wf(),
            r.next_seq == 0,
            r.in_flight@.len() == 0,
            r.max_retries == max_retries,
    {
        ReliableSender { next_seq: 0, in_flight: Vec::new(), max_retries }
    }

    /// Queues `payload` as sent at `now`; returns its sequence number.
    pub fn send(&mut self, payload: Vec<u8>, now: u64) -> (r: u64)
        requires
            old(self).wf(),
            old(self).next_seq < u64::MAX,
        ensures
            final(self).wf(),
            r == old(self).next_seq,
            final(self).next_seq == old(self).next_seq + 1,
            final(self).max_retries == old(self).max_retries,
            final(self).in_flight@ == old(self).in_flight@.push(
                InFlight { seq: r, payload, last_sent_us: now, attempts: 0 },
            ),
    {
        let seq = self.next_seq;
        self.in_flight.push(InFlight { seq, payload, last_sent_us: now, attempts: 0 });
        self.next_seq = seq + 1;
        seq
    }

    /// The peer acknowledged message `seq`: it leaves the queue.
    pub fn ack(&mut self, seq: u64) -> (r: bool)
        requires
            old(self).wf(),
        ensures
            final(self).wf(),
            final(self).next_seq == old(self).next_seq,
            final(self).max_retries == old(self).max_retries,
            r == (exists|i: int| 0 <= i < old(self).in_flight@.len() && old(self).in_flight@[i].seq == seq),
            r ==> exists|i: int|
                0 <= i < old(self).in_flight@.len() && old(self).in_flight@[i].seq == seq
                    && final(self).in_flight@ == old(self).in_flight@.remove(i),
            !r ==> final(self).in_flight@ == old(self).in_flight@,
    {
        let mut i: usize = 0;
        while i < self.in_flight.len()
            invariant
                i <= self.in_flight@.len(),
                self.in_flight@ == old(self).in_flight@,
                old(self).wf(),
                self.next_seq == old(self).next_seq,
                self.max_retries == old(self).max_retries,
                forall|k: int| 0 <= k < i ==> self.in_flight@[k].seq != seq,
            decreases self.in_flight@.len() - i,
        {
            if self.in_flight[i].seq == seq {
                let ghost q = self.in_flight@;
                self.in_flight.remove(i);
                assert(self.in_flight@ == q.remove(i as int));
                assert forall|a: int, b: int| 0 <= a < b < self.in_flight@.len() implies
                    self.in_flight@[a].seq < self.in_flight@[b].seq by {
                    let a2 = if a >= i { a + 1 } else { a };
                    let b2 = if b >= i { b + 1 } else { b };
                    assert(self.in_flight@[a] == q[a2]);
                    assert(self.in_flight@[b] == q[b2]);
                    assert(q[a2].seq < q[b2].seq);
                }
                assert forall|a: int| 0 <= a < self.in_flight@.len() implies self.in_flight@[a].seq < self.next_seq by {
                    let a2 = if a >= i { a + 1 } else { a };
                    assert(self.in_flight@[a] == q[a2]);
                    assert(q[a2].seq < self.next_seq);
                }
                return true;
            }
            i = i + 1;
        }
        false
    }

    /// Resend pass at `now`: every message whose back-off has run out goes
    /// out again and its timer restarts. If one of them has already been
    /// resent `max_retries` times, the pass reports the session lost and
    /// changes nothing.
    pub fn poll_resend(&mut self, now: u64, rto: u64) -> (r: ResendOutcome)
        requires
            old(self).wf(),
        ensures
            final(self).wf(),
            final(self).next_seq == old(self).next_seq,
            final(self).max_retries == old(self).max_retries,
            (exists|i: int|
                0 <= i < old(self).in_flight@.len() && is_due(old(self).in_flight@[i], now, rto)
                    && old(self).in_flight@[i].attempts >= old(self).max_retries) <==> r is Lost,
            r is Lost ==> final(self).in_flight@ == old(self).in_flight@,
            r matches ResendOutcome::Resend(v) ==> {
                &&& v@ == due_seqs(old(self).in_flight@, now, rto)
                &&& final(self).in_flight@.len() == old(self).in_flight@.len()
                &&& forall|i: int| 0 <= i < old(self).in_flight@.len() ==> #[trigger] final(self).in_flight@[i]
                    == if is_due(old(self).in_flight@[i], now, rto) {
                    resent(old(self).in_flight@[i], now)
                } else {
                    old(self).in_flight@[i]
                }
            },
    {
        let mut i: usize = 0;
        while i < self.in_flight.len()
            invariant
                i <= self.in_flight@.len(),
                self.in_flight@ == old(self).in_flight@,
                old(self).wf(),
                self.next_seq == old(self).next_seq,
                self.max_retries == old(self).max_retries,
                forall|k: int| 0 <= k < i ==> !(is_due(self.in_flight@[k], now, rto)
                    && self.in_flight@[k].attempts >= self.max_retries),
            decreases self.in_flight@.len() - i,
        {
            let e = &self.in_flight[i];
            if now >= e.last_sent_us && now - e.last_sent_us >= backoff_us(rto, e.attempts)
                && e.attempts >= self.max_retries {
                return ResendOutcome::Lost;
            }
            i = i + 1;
        }
        let mut out: Vec<u64> = Vec::new();
        let mut j: usize = 0;
        while j < self.in_flight.len()
            invariant
                j <= self.in_flight@.len(),
                self.in_flight@.len() == old(self).in_flight@.len(),
                old(self).wf(),
                self.next_seq == old(self).next_seq,
                self.max_retries == old(self).max_retries,
                forall|k: int| 0 <= k < old(self).in_flight@.len() ==> !(is_due(old(self).in_flight@[k], now, rto)
                    && old(self).in_flight@[k].attempts >= self.max_retries),
                forall|k: int| j <= k < self.in_flight@.len() ==> self.in_flight@[k] == old(self).in_flight@[k],
                forall|k: int| 0 <= k < j ==> #[trigger] self.in_flight@[k] == if is_due(old(self).in_flight@[k], now, rto) {
                    resent(old(self).in_flight@[k], now)
                } else {
                    old(self).in_flight@[k]
                },
                out@ == due_seqs(old(self).in_flight@.take(j as int), now, rto),
            decreases self.in_flight@.len() - j,
        {
            let ghost q = old(self).in_flight@;
            assert(q.take(j + 1).drop_last() =~= q.take(j as int));
            let last_sent = self.in_flight[j].last_sent_us;
            let attempts = self.in_flight[j].attempts;
            if now >= last_sent && now - last_sent >= backoff_us(rto, attempts) {
                let ghost out0 = out@;
                let ghost before = self.in_flight@;
                let mut e = self.in_flight.remove(j);
                out.push(e.seq);
                assert(out@ =~= out0.push(e.seq));
                e.last_sent_us = now;
                e.attempts = attempts + 1;
                self.in_flight.insert(j, e);
                assert(self.in_flight@ =~= before.update(j as int, e));
            }
            j = j + 1;
        }
        assert(old(self).in_flight@.take(j as int) =~= old(self).in_flight@);
        proof {
            assert forall|a: int, b: int| 0 <= a < b < self.in_flight@.len() implies
                self.in_flight@[a].seq < self.in_flight@[b].seq by {
                assert(self.in_flight@[a].seq == old(self).in_flight@[a].seq);
                assert(self.in_flight@[b].seq == old(self).in_flight@[b].seq);
            }
            assert forall|a: int| 0 <= a < self.in_flight@.len() implies self.in_flight@[a].seq < self.next_seq by {
                assert(self.in_flight@[a].seq == old(self).in_flight@[a].seq);
            }
        }
        ResendOutcome::Resend(out)
    }

    /// The payload of the queued message at `index`.
    pub fn payload_at(&self, index: usize) -> (r: &Vec<u8>)
        requires
            index < self.in_flight@.len(),
        ensures
            *r == self.in_flight@[index as int].payload,
    {
        &self.in_flight[index].payload
    }
}

} // verus!
