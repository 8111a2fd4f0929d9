//! Server-to-client replication: per-target visibility, packing whole
//! replication groups into a datagram budget, detecting the components that
//! changed since the client's acknowledged baseline, XOR deltas against that
//! baseline, and the client's store of applied component values.
use vstd::prelude::*;
use crate::input::copy_bytes;
use crate::tick::{sub_ticks, tick_diff};

verus! {

/// Which clients an entity is replicated to.
#[derive(Clone, Copy, Debug, PartialEq, Eq, Structural)]
pub enum Visibility {
    All,
    Single(u64),
    AllExcept(u64),
}

pub open spec fn visible(v: Visibility, peer: u64) -> bool {
    match v {
        Visibility::All => true,
        Visibility::Single(p) => p == peer,
        Visibility::AllExcept(p) => p != peer,
    }
}

impl Visibility {
    /// Whether client `peer` receives the entity.
    pub fn is_visible_to(&self, peer: u64) -> (r: bool)
        ensures
            r == visible(*self, peer),
    {
        match self {
            Visibility::All => true,
            Visibility::Single(p) => *p == peer,
            Visibility::AllExcept(p) => *p != peer,
        }
    }
}

/// Greedy packing from group `i` on with `room` bytes left: a group goes in
/// whole when it fits in what is left, and is otherwise deferred whole.
pub open spec fn pack_from(sizes: Seq<usize>, i: int, room: int) -> Seq<bool>
    decreases sizes.len() - i,
{
    if i >= sizes.len() || i < 0 {
        Seq::empty()
    } else if sizes[i] <= room {
        seq![true] + pack_from(sizes, i + 1, room - sizes[i])
    } else {
        seq![false] + pack_from(sizes, i + 1, room)
    }
}

/// Total size of the groups that `chosen` includes.
pub open spec fn packed_size(sizes: Seq<usize>, chosen: Seq<bool>) -> int
    decreases sizes.len(),
{
    if sizes.len() == 0 || chosen.len() == 0 {
        0
    } else {
        (if chosen[0] { sizes[0] as int } else { 0 }) + packed_size(sizes.drop_first(), chosen.drop_first())
    }
}

proof fn lemma_pack_from_len(sizes: Seq<usize>, i: int, room: int)
    requires
        0 <= i <= sizes.len(),
    ensures
        pack_from(sizes, i, room).len() == sizes.len() - i,
    decreases sizes.len() - i,
{
    if i < sizes.len() {
        if sizes[i] <= room {
            lemma_pack_from_len(sizes, i + 1, room - sizes[i]);
        } else {
            lemma_pack_from_len(sizes, i + 1, room);
        }
    }
}

proof fn lemma_pack_from_fits(sizes: Seq<usize>, i: int, room: int)
    requires
        0 <= i <= sizes.len(),
        room >= 0,
    ensures
        packed_size(sizes.skip(i), pack_from(sizes, i, room)) <= room,
    decreases sizes.len() - i,
{
    if i < sizes.len() {
        let rest = sizes.skip(i);
        assert(rest.drop_first() =~= sizes.skip(i + 1));
        if sizes[i] <= room {
            lemma_pack_from_fits(sizes, i + 1, room - sizes[i]);
            assert(pack_from(sizes, i, room).drop_first() =~= pack_from(sizes, i + 1, room - sizes[i]));
        } else {
            lemma_pack_from_fits(sizes, i + 1, room);
            assert(pack_from(sizes, i, room).drop_first() =~= pack_from(sizes, i + 1, room));
        }
    }
}

/// Decides which replication groups go into a datagram with `budget` bytes:
/// `r[i]` is true when group `i`, of `sizes[i]` bytes, is sent whole now, and
/// false when it is deferred whole to the next tick.
pub fn pack_groups(sizes: &Vec<usize>, budget: usize) -> (r: Vec<bool>)
    ensures
        r@ == pack_from(sizes@, 0, budget as int),
        r@.len() == sizes@.len(),
        packed_size(sizes@, r@) <= budget,
{
    let mut out: Vec<bool> = Vec::new();
    let mut room: usize = budget;
    let mut i: usize = 0;
    while i < sizes.len()
        invariant
            i <= sizes@.len(),
            room <= budget,
            out@ + pack_from(sizes@, i as int, room as int) == pack_from(sizes@, 0, budget as int),
        decreases sizes@.len() - i,
    {
        let ghost o = out@;
        if sizes[i] <= room {
            out.push(true);
            assert(out@ + pack_from(sizes@, i + 1, (room - sizes[i as int]) as int) =~= o + pack_from(
                sizes@,
                i as int,
                room as int,
            ));
            room = room - sizes[i];
        } else {
            out.push(false);
            assert(out@ + pack_from(sizes@, i + 1, room as int) =~= o + pack_from(sizes@, i as int, room as int));
        }
        i = i + 1;
    }
    assert(out@ + Seq::<bool>::empty() =~= out@);
    proof {
        lemma_pack_from_len(sizes@, 0, budget as int);
        lemma_pack_from_fits(sizes@, 0, budget as int);
        assert(sizes@.skip(0) =~= sizes@);
    }
    out
}

/// Group atomicity: a group is never split. The packing decides each group
/// whole, sending or deferring all of it, and the groups sent fit the
/// budget.
pub proof fn lemma_groups_sent_whole(sizes: Seq<usize>, budget: usize)
    ensures
        pack_from(sizes, 0, budget as int).len() == sizes.len(),
        packed_size(sizes, pack_from(sizes, 0, budget as int)) <= budget,
        budget as int >= 0,
{
    lemma_pack_from_len(sizes, 0, budget as int);
    lemma_pack_from_fits(sizes, 0, budget as int);
    assert(sizes.skip(0) =~= sizes);
}

/// Indices of the components whose current value differs from the client's
/// acknowledged baseline (or that have no baseline yet).
pub open spec fn dirty_indices(current: Seq<Seq<u8>>, baseline: Seq<Option<Seq<u8>>>) -> Seq<usize>
    decreases current.len(),
{
    if current.len() == 0 {
        Seq::empty()
    } else {
        let k = (current.len() - 1) as int;
        let rest = dirty_indices(current.drop_last(), baseline);
        if k < baseline.len() && baseline[k] == Some(current[k]) {
            rest
        } else {
            rest.push(k as usize)
        }
    }
}

pub open spec fn baseline_view(b: Seq<Option<Vec<u8>>>) -> Seq<Option<Seq<u8>>> {
    b.map_values(|o: Option<Vec<u8>>| match o {
        None => None,
        Some(v) => Some(v@),
    })
}

/// Compares two byte strings.
pub fn bytes_eq(a: &Vec<u8>, b: &Vec<u8>) -> (r: bool)
    ensures
        r == (a@ == b@),
{
    if a.len() != b.len() {
        return false;
    }
    let mut i: usize = 0;
    while i < a.len()
        invariant
            i <= a@.len() == b@.len(),
            forall|k: int| 0 <= k < i ==> a@[k] == b@[k],
        decreases a@.len() - i,
    {
        if a[i] != b[i] {
            return false;
        }
        i = i + 1;
    }
    assert(a@ =~= b@);
    true
}

/// The components to send to a client: those changed since its baseline.
pub fn dirty_components(current: &Vec<Vec<u8>>, baseline: &Vec<Option<Vec<u8>>>) -> (r: Vec<usize>)
    ensures
        r@ == dirty_indices(current@.map_values(|v: Vec<u8>| v@), baseline_view(baseline@)),
{
    let ghost cur = current@.map_values(|v: Vec<u8>| v@);
    let ghost base = baseline_view(baseline@);
    let mut out: Vec<usize> = Vec::new();
    let mut k: usize = 0;
    while k < current.len()
        invariant
            k <= current@.len(),
            cur == current@.map_values(|v: Vec<u8>| v@),
            base == baseline_view(baseline@),
            out@ == dirty_indices(cur.take(k as int), base),
        decreases current@.len() - k,
    {
        assert(cur.take(k + 1).drop_last() =~= cur.take(k as int));
        let same = if k < baseline.len() {
            match &baseline[k] {
                Some(b) => bytes_eq(b, &current[k]),
                None => false,
            }
        } else {
            false
        };
        if !same {
            out.push(k);
        }
        k = k + 1;
    }
    assert(cur.take(k as int) =~= cur);
    out
}

/// Replication idempotence on the server side: when every component equals
/// the client's acknowledged baseline, nothing is sent.
pub proof fn lemma_unchanged_sends_nothing(current: Seq<Seq<u8>>, baseline: Seq<Option<Seq<u8>>>)
    requires
        current.len() <= baseline.len(),
        forall|k: int| 0 <= k < current.len() ==> baseline[k] == Some(current[k]),
    ensures
        dirty_indices(current, baseline).len() == 0,
    decreases current.len(),
{
    if current.len() > 0 {
        lemma_unchanged_sends_nothing(current.drop_last(), baseline);
    }
}

/// Byte-wise XOR of two strings of one length.
pub open spec fn xor_bytes(a: Seq<u8>, b: Seq<u8>) -> Seq<u8> {
    Seq::new(a.len(), |i: int| a[i] ^ b[i])
}

/// Delta of `new` against the acknowledged `base`: their XOR.
pub fn delta_encode(base: &Vec<u8>, new: &Vec<u8>) -> (r: Vec<u8>)
    requires
        base@.len() == new@.len(),
    ensures
        r@ == xor_bytes(base@, new@),
{
    let mut out: Vec<u8> = Vec::new();
    let mut i: usize = 0;
    while i < base.len()
        invariant
            i <= base@.len() == new@.len(),
            out@ == xor_bytes(base@, new@).take(i as int),
        decreases base@.len() - i,
    {
        out.push(base[i] ^ new[i]);
        assert(xor_bytes(base@, new@).take(i + 1) =~= xor_bytes(base@, new@).take(i as int).push(base@[i as int] ^ new@[i as int]));
        i = i + 1;
    }
    assert(xor_bytes(base@, new@).take(i as int) =~= xor_bytes(base@, new@));
    out
}

/// Rebuilds the new value from the acknowledged `base` and a delta.
pub fn delta_decode(base: &Vec<u8>, delta: &Vec<u8>) -> (r: Option<Vec<u8>>)
    ensures
        base@.len() == delta@.len() <==> r is Some,
        r matches Some(v) ==> v@ == xor_bytes(base@, delta@),
{
    if base.len() != delta.len() {
        return None;
    }
    Some(delta_encode(base, delta))
}

/// Decoding a delta against the same baseline gives the new value back.
pub proof fn lemma_delta_round_trip(base: Seq<u8>, new: Seq<u8>)
    requires
        base.len() == new.len(),
    ensures
        xor_bytes(base, xor_bytes(base, new)) == new,
{
    assert forall|i: int| 0 <= i < base.len() implies #[trigger] xor_bytes(base, xor_bytes(base, new))[i] == new[i] by {
        let a = base[i];
        let b = new[i];
        assert(a ^ (a ^ b) == b) by (bit_vector);
    }
    assert(xor_bytes(base, xor_bytes(base, new)) =~= new);
}

/// A client's applied component values of one entity, by component index.
pub struct ComponentStore {
    pub values: Vec<Option<Vec<u8>>>,
}

/// The store after setting component `id` to `v`, growing it as needed.
pub open spec fn store_set(s: Seq<Option<Seq<u8>>>, id: int, v: Seq<u8>) -> Seq<Option<Seq<u8>>> {
    if id < s.len() {
        s.update(id, Some(v))
    } else {
        (s + Seq::new((id - s.len()) as nat, |i: int| None::<Seq<u8>>)).push(Some(v))
    }
}

impl ComponentStore {
    pub open spec fn view_values(&self) -> Seq<Option<Seq<u8>>> {
        baseline_view(self.values@)
    }

    pub fn new() -> (r: ComponentStore)
        ensures
            r.values@.len() == 0,
    {
        ComponentStore { values: Vec::new() }
    }

    /// Applies one received component value.
    pub fn apply(&mut self, id: usize, v: Vec<u8>)
        ensures
            final(self).view_values() == store_set(old(self).view_values(), id as int, v@),
    {
        let ghost s0 = self.view_values();
        if id < self.values.len() {
            self.values.set(id, Some(v));
            assert(self.view_values() =~= s0.update(id as int, Some(v@)));
        } else {
            while self.values.len() < id
                invariant
                    s0.len() <= self.values@.len() <= id,
                    self.view_values() =~= s0 + Seq::new((self.values@.len() - s0.len()) as nat, |i: int| None::<Seq<u8>>),
                decreases id - self.values@.len(),
            {
                let ghost before = self.view_values();
                self.values.push(None);
                assert(self.view_values() =~= before.push(None));
                assert(Seq::new((self.values@.len() - s0.len()) as nat, |i: int| None::<Seq<u8>>) =~= Seq::new(
                    (before.len() - s0.len()) as nat,
                    |i: int| None::<Seq<u8>>,
                ).push(None));
            }
            let ghost mid = self.view_values();
            self.values.push(Some(v));
            assert(self.view_values() =~= mid.push(Some(v@)));
        }
    }

    /// The value of component `id`, copied.
    pub fn get(&self, id: usize) -> (r: Option<Vec<u8>>)
        ensures
            id < self.values@.len() && self.view_values()[id as int] is Some <==> r is Some,
            r matches Some(v) ==> self.view_values()[id as int] == Some(v@),
    {
        if id >= self.values.len() {
            return None;
        }
        match &self.values[id] {
            Some(v) => Some(copy_bytes(v)),
            None => None,
        }
    }
}

/// Replication idempotence on the client side: applying a value the store
/// already holds changes nothing.
pub proof fn lemma_reapply_no_change(s: Seq<Option<Seq<u8>>>, id: int, v: Seq<u8>)
    requires
        0 <= id < s.len(),
        s[id] == Some(v),
    ensures
        store_set(s, id, v) == s,
{
    assert(s.update(id, Some(v)) =~= s);
}

/// Newest tick applied for group `g` among `v`: the first record of `g`.
pub open spec fn group_tick(v: Seq<(u16, u16)>, g: u16) -> Option<u16>
    decreases v.len(),
{
    if v.len() == 0 {
        None
    } else if v[0].0 == g {
        Some(v[0].1)
    } else {
        group_tick(v.drop_first(), g)
    }
}

proof fn lemma_group_tick_at(v: Seq<(u16, u16)>, g: u16, i: int)
    requires
        0 <= i < v.len(),
        v[i].0 == g,
        forall|j: int| 0 <= j < i ==> v[j].0 != g,
    ensures
        group_tick(v, g) == Some(v[i].1),
    decreases i,
{
    if i > 0 {
        lemma_group_tick_at(v.drop_first(), g, i - 1);
    }
}

proof fn lemma_group_tick_absent(v: Seq<(u16, u16)>, g: u16)
    requires
        forall|j: int| 0 <= j < v.len() ==> v[j].0 != g,
    ensures
        group_tick(v, g) is None,
    decreases v.len(),
{
    if v.len() > 0 {
        lemma_group_tick_absent(v.drop_first(), g);
    }
}

proof fn lemma_group_tick_update(v: Seq<(u16, u16)>, i: int, t: u16, g2: u16)
    requires
        0 <= i < v.len(),
        g2 != v[i].0,
    ensures
        group_tick(v.update(i, (v[i].0, t)), g2) == group_tick(v, g2),
    decreases v.len(),
{
    let w = v.update(i, (v[i].0, t));
    if i == 0 {
        assert(w.drop_first() =~= v.drop_first());
    } else {
        assert(w[0] == v[0]);
        if v[0].0 != g2 {
            assert(w.drop_first() =~= v.drop_first().update(i - 1, (v[i].0, t)));
            lemma_group_tick_update(v.drop_first(), i - 1, t, g2);
        }
    }
}

proof fn lemma_group_tick_push(v: Seq<(u16, u16)>, e: (u16, u16), g2: u16)
    requires
        g2 != e.0,
    ensures
        group_tick(v.push(e), g2) == group_tick(v, g2),
    decreases v.len(),
{
    if v.len() > 0 {
        assert(v.push(e)[0] == v[0]);
        if v[0].0 != g2 {
            assert(v.push(e).drop_first() =~= v.drop_first().push(e));
            lemma_group_tick_push(v.drop_first(), e, g2);
        }
    } else {
        let w = v.push(e);
        assert(w[0] == e);
        assert(w.drop_first() =~= Seq::<(u16, u16)>::empty());
        assert(group_tick(w.drop_first(), g2) is None);
    }
}

/// Client side of replication ordering: per group, the newest tick applied.
/// An update for a group is applied only when its tick is newer; all of a
/// group's components arrive and are applied together.
pub struct GroupTracker {
    pub latest: Vec<(u16, u16)>,
}

impl GroupTracker {
    pub fn new() -> (r: GroupTracker)
        ensures
            forall|g: u16| group_tick(r.latest@, g) is None,
    {
        let r = GroupTracker { latest: Vec::new() };
        assert forall|g: u16| group_tick(r.latest@, g) is None by {
        }
        r
    }

    /// An update for `group` stamped `tick` arrived; returns whether it is
    /// to be applied.
    pub fn accept(&mut self, group: u16, tick: u16) -> (r: bool)
        ensures
            r == crate::channel::sequenced_accepts(group_tick(old(self).latest@, group), tick),
            group_tick(final(self).latest@, group) == (if r {
                Some(tick)
            } else {
                group_tick(old(self).latest@, group)
            }),
            forall|g: u16| g != group ==> group_tick(final(self).latest@, g) == group_tick(old(self).latest@, g),
    {
        let ghost v = self.latest@;
        let mut i: usize = 0;
        while i < self.latest.len()
            invariant
                i <= self.latest@.len(),
                self.latest@ == v,
                v == old(self).latest@,
                forall|j: int| 0 <= j < i ==> v[j].0 != group,
            decreases self.latest@.len() - i,
        {
            let (g, t) = self.latest[i];
            if g == group {
                proof {
                    lemma_group_tick_at(v, group, i as int);
                }
                if sub_ticks(tick, t) > 0 {
                    self.latest.set(i, (group, tick));
                    proof {
                        let nv = v.update(i as int, (group, tick));
                        assert(self.latest@ == nv);
                        assert(forall|j: int| 0 <= j < i ==> nv[j].0 != group);
                        lemma_group_tick_at(nv, group, i as int);
                        assert forall|g2: u16| g2 != group implies group_tick(self.latest@, g2) == group_tick(v, g2) by {
                            lemma_group_tick_update(v, i as int, tick, g2);
                        }
                    }
                    return true;
                }
                return false;
            }
            i = i + 1;
        }
        proof {
            lemma_group_tick_absent(v, group);
        }
        self.latest.push((group, tick));
        proof {
            let nv = v.push((group, tick));
            assert(forall|j: int| 0 <= j < v.len() ==> nv[j].0 != group);
            lemma_group_tick_at(nv, group, v.len() as int);
            assert forall|g2: u16| g2 != group implies group_tick(self.latest@, g2) == group_tick(v, g2) by {
                lemma_group_tick_push(v, (group, tick), g2);
            }
        }
        true
    }

    /// The acknowledgements to piggyback: each group with its newest tick.
    pub fn acks(&self) -> (r: Vec<(u16, u16)>)
        ensures
            r@ == self.latest@,
    {
        let mut out: Vec<(u16, u16)> = Vec::new();
        let mut i: usize = 0;
        while i < self.latest.len()
            invariant
                i <= self.latest@.len(),
                out@ == self.latest@.take(i as int),
            decreases self.latest@.len() - i,
        {
            out.push(self.latest[i]);
            assert(self.latest@.take(i + 1) =~= self.latest@.take(i as int).push(self.latest@[i as int]));
            i = i + 1;
        }
        assert(self.latest@.take(i as int) =~= self.latest@);
        out
    }
}

/// A component value as sent: a delta against the acknowledged baseline
/// when the component allows it and a baseline of the same length exists,
/// the full value otherwise.
pub open spec fn encoded_value(current: Seq<u8>, baseline: Option<Seq<u8>>, delta_enabled: bool) -> (bool, Seq<u8>) {
    match baseline {
        Some(b) => if delta_enabled && b.len() == current.len() {
            (true, xor_bytes(b, current))
        } else {
            (false, current)
        },
        None => (false, current),
    }
}

/// Encodes a component value; the flag tells a delta from a full value.
pub fn encode_value(current: &Vec<u8>, baseline: Option<&Vec<u8>>, delta_enabled: bool) -> (r: (bool, Vec<u8>))
    ensures
        (r.0, r.1@) == encoded_value(current@, match baseline {
            Some(b) => Some(b@),
            None => None,
        }, delta_enabled),
{
    match baseline {
        Some(b) => if delta_enabled && b.len() == current.len() {
            (true, delta_encode(b, current))
        } else {
            (false, copy_bytes(current))
        },
        None => (false, copy_bytes(current)),
    }
}

/// The value a client rebuilds from what it received: a full value as it
/// is, a delta against its baseline; `None` for a delta without a matching
/// baseline.
pub open spec fn decoded_value(is_delta: bool, payload: Seq<u8>, baseline: Option<Seq<u8>>) -> Option<Seq<u8>> {
    if !is_delta {
        Some(payload)
    } else {
        match baseline {
            Some(b) => if b.len() == payload.len() {
                Some(xor_bytes(b, payload))
            } else {
                None
            },
            None => None,
        }
    }
}

/// Decodes a component value received as `encode_value` sent it.
pub fn decode_value(is_delta: bool, payload: &Vec<u8>, baseline: Option<&Vec<u8>>) -> (r: Option<Vec<u8>>)
    ensures
        match r {
            None => decoded_value(is_delta, payload@, match baseline {
                Some(b) => Some(b@),
                None => None,
            }) is None,
            Some(v) => decoded_value(is_delta, payload@, match baseline {
                Some(b) => Some(b@),
                None => None,
            }) == Some(v@),
        },
{
    if !is_delta {
        return Some(copy_bytes(payload));
    }
    match baseline {
        Some(b) => delta_decode(b, payload),
        None => None,
    }
}

/// A value sent as a delta or in full is rebuilt exactly by a client that
/// holds the same acknowledged baseline.
pub proof fn lemma_value_round_trip(current: Seq<u8>, baseline: Option<Seq<u8>>, delta_enabled: bool)
    ensures
        decoded_value(encoded_value(current, baseline, delta_enabled).0, encoded_value(current, baseline, delta_enabled).1, baseline)
            == Some(current),
{
    if let Some(b) = baseline {
        if delta_enabled && b.len() == current.len() {
            lemma_delta_round_trip(b, current);
        }
    }
}

/// Values sent later than `tick`, in order.
pub open spec fn after_tick(pending: Seq<(u16, Seq<u8>)>, tick: u16) -> Seq<(u16, Seq<u8>)>
    decreases pending.len(),
{
    if pending.len() == 0 {
        Seq::empty()
    } else {
        let rest = after_tick(pending.drop_last(), tick);
        if tick_diff(pending.last().0, tick) > 0 { rest.push(pending.last()) } else { rest }
    }
}

/// The value sent at `tick`, the first one if sent more than once.
pub open spec fn sent_at(pending: Seq<(u16, Seq<u8>)>, tick: u16) -> Option<Seq<u8>>
    decreases pending.len(),
{
    if pending.len() == 0 {
        None
    } else if pending[0].0 == tick {
        Some(pending[0].1)
    } else {
        sent_at(pending.drop_first(), tick)
    }
}

pub open spec fn pending_view(p: Seq<(u16, Vec<u8>)>) -> Seq<(u16, Seq<u8>)> {
    p.map_values(|e: (u16, Vec<u8>)| (e.0, e.1@))
}

/// The server's delta baseline of one component for one client: the values
/// sent and not yet acknowledged, and the newest acknowledged one.
pub struct Baseline {
    pub pending: Vec<(u16, Vec<u8>)>,
    pub acked: Option<(u16, Vec<u8>)>,
}

impl Baseline {
    pub fn new() -> (r: Baseline)
        ensures
            r.pending@.len() == 0,
            r.acked is None,
    {
        Baseline { pending: Vec::new(), acked: None }
    }

    /// Records that `value` was sent with tick `tick`.
    pub fn record_sent(&mut self, tick: u16, value: Vec<u8>)
        ensures
            pending_view(final(self).pending@) == pending_view(old(self).pending@).push((tick, value@)),
            final(self).acked == old(self).acked,
    {
        let ghost p0 = self.pending@;
        self.pending.push((tick, value));
        assert(pending_view(self.pending@) =~= pending_view(p0).push((tick, value@)));
    }

    /// The client acknowledged tick `tick`: the value sent then becomes the
    /// baseline, and every record up to that tick is dropped.
    pub fn on_ack(&mut self, tick: u16)
        ensures
            pending_view(final(self).pending@) == after_tick(pending_view(old(self).pending@), tick),
            sent_at(pending_view(old(self).pending@), tick) matches Some(v) ==> (final(self).acked matches Some(a)
                && a.0 == tick && a.1@ == v),
            sent_at(pending_view(old(self).pending@), tick) is None ==> final(self).acked == old(self).acked,
    {
        let ghost pv = pending_view(self.pending@);
        // Find the value sent at that tick.
        let mut i: usize = 0;
        let mut found: Option<usize> = None;
        assert(pv.skip(0) =~= pv);
        while i < self.pending.len() && found.is_none()
            invariant
                i <= self.pending@.len(),
                pv == pending_view(self.pending@),
                found matches Some(j) ==> j < self.pending@.len() && sent_at(pv, tick) == Some(pv[j as int].1),
                found is None ==> sent_at(pv, tick) == sent_at(pv.skip(i as int), tick),
            decreases self.pending@.len() - i, if found is None { 1int } else { 0int },
        {
            assert(pv.skip(i as int).drop_first() =~= pv.skip(i + 1));
            assert(pv.skip(i as int)[0] == pv[i as int]);
            if self.pending[i].0 == tick {
                found = Some(i);
            } else {
                i = i + 1;
            }
        }
        match found {
            Some(j) => {
                let v = copy_bytes(&self.pending[j].1);
                self.acked = Some((tick, v));
            },
            None => {
                assert(pv.skip(i as int) =~= Seq::<(u16, Seq<u8>)>::empty());
            },
        }
        // Keep only what was sent after it.
        let mut kept: Vec<(u16, Vec<u8>)> = Vec::new();
        let mut old_pending: Vec<(u16, Vec<u8>)> = Vec::new();
        std::mem::swap(&mut old_pending, &mut self.pending);
        let ghost all = old_pending@;
        assert(pending_view(all) == pv);
        let mut rev: Vec<(u16, Vec<u8>)> = Vec::new();
        while old_pending.len() > 0
            invariant
                pending_view(all) == pv,
                old_pending@ =~= all.take(old_pending@.len() as int),
                old_pending@.len() <= all.len(),
                pending_view(rev@) =~= after_tick(pv.skip(old_pending@.len() as int), tick).reverse(),
            decreases old_pending@.len(),
        {
            let n = old_pending.len();
            let e = old_pending.pop().unwrap();
            assert(e == all[n - 1]);
            proof {
                lemma_after_tick_prepend(pv.skip(n - 1), tick);
                assert(pv.skip(n - 1).drop_first() =~= pv.skip(n as int));
                assert(pv.skip(n - 1)[0] == (e.0, e.1@));
            }
            if sub_ticks(e.0, tick) > 0 {
                let ghost r0 = pending_view(rev@);
                rev.push(e);
                assert(pending_view(rev@) =~= r0.push((e.0, e.1@)));
                assert((seq![(e.0, e.1@)] + after_tick(pv.skip(n as int), tick)).reverse() =~=
                    after_tick(pv.skip(n as int), tick).reverse().push((e.0, e.1@)));
            }
            assert(old_pending@ =~= all.take(n - 1));
        }
        assert(pv.skip(0) =~= pv);
        while rev.len() > 0
            invariant
                pending_view(kept@) + pending_view(rev@).reverse() =~= after_tick(pv, tick),
            decreases rev@.len(),
        {
            let ghost r0 = pending_view(rev@);
            let ghost k0 = pending_view(kept@);
            let e = rev.pop().unwrap();
            kept.push(e);
            assert(pending_view(kept@) =~= k0.push((e.0, e.1@)));
            assert(r0 =~= pending_view(rev@).push((e.0, e.1@)));
            assert(r0.reverse() =~= seq![(e.0, e.1@)] + pending_view(rev@).reverse());
        }
        assert(pending_view(rev@).reverse() =~= Seq::<(u16, Seq<u8>)>::empty());
        self.pending = kept;
    }
}

proof fn lemma_after_tick_prepend(p: Seq<(u16, Seq<u8>)>, tick: u16)
    requires
        p.len() > 0,
    ensures
        after_tick(p, tick) == if tick_diff(p[0].0, tick) > 0 {
            seq![p[0]] + after_tick(p.drop_first(), tick)
        } else {
            after_tick(p.drop_first(), tick)
        },
    decreases p.len(),
{
    if p.len() == 1 {
        assert(p.drop_last() =~= Seq::<(u16, Seq<u8>)>::empty());
        assert(p.drop_first() =~= Seq::<(u16, Seq<u8>)>::empty());
        if tick_diff(p[0].0, tick) > 0 {
            assert(Seq::<(u16, Seq<u8>)>::empty().push(p.last()) =~= seq![p[0]] + Seq::<(u16, Seq<u8>)>::empty());
        }
    } else {
        lemma_after_tick_prepend(p.drop_last(), tick);
        assert(p.drop_last().drop_first() =~= p.drop_first().drop_last());
        assert(p.drop_first().last() == p.last());
        assert(p.drop_last()[0] == p[0]);
        if tick_diff(p[0].0, tick) > 0 {
            let r = after_tick(p.drop_first().drop_last(), tick);
            assert((seq![p[0]] + r).push(p.last()) =~= seq![p[0]] + r.push(p.last()));
        }
    }
}

/// How a component is replicated.
#[derive(Clone, Copy, Debug, PartialEq, Eq, Structural)]
pub enum ReplicationMode {
    /// Sent on spawn and on explicit change; applied as it arrives.
    Once,
    /// Sent every tick it changes; interpolated on remote clients, checked
    /// for rollback on predicting ones.
    Full,
}

/// What the receiving client does with an entity.
#[derive(Clone, Copy, Debug, PartialEq, Eq, Structural)]
pub enum EntityRole {
    /// Rendered behind the server timeline between snapshots.
    Interpolated,
    /// Predicted ahead by this client.
    Predicted,
    /// Neither: shown as received.
    Plain,
}

/// Where a received component value goes.
#[derive(Clone, Copy, Debug, PartialEq, Eq, Structural)]
pub enum Route {
    /// Applied to the entity directly.
    Apply,
    /// Appended to the entity's snapshot buffer with its tick.
    Buffer,
    /// Handed to the prediction engine for reconciliation.
    Predict,
}

/// The component registry's entry for one component.
#[derive(Clone, Copy, Debug, PartialEq, Eq, Structural)]
pub struct ComponentDescriptor {
    pub wire_id: u16,
    pub mode: ReplicationMode,
    pub delta: bool,
    pub rollback: crate::prediction::RollbackTest,
}

pub open spec fn route_for(mode: ReplicationMode, role: EntityRole) -> Route {
    match mode {
        ReplicationMode::Once => Route::Apply,
        ReplicationMode::Full => match role {
            EntityRole::Interpolated => Route::Buffer,
            EntityRole::Predicted => Route::Predict,
            EntityRole::Plain => Route::Apply,
        },
    }
}

/// Routes a received value: `Once` components are applied directly; `Full`
/// ones go to the snapshot buffer of an interpolated entity or to the
/// prediction engine of a predicted one.
pub fn route(mode: ReplicationMode, role: EntityRole) -> (r: Route)
    ensures
        r == route_for(mode, role),
{
    match mode {
        ReplicationMode::Once => Route::Apply,
        ReplicationMode::Full => match role {
            EntityRole::Interpolated => Route::Buffer,
            EntityRole::Predicted => Route::Predict,
            EntityRole::Plain => Route::Apply,
        },
    }
}

/// Looks up the descriptor of `wire_id` in the registry: the first entry
/// with that id.
pub fn find_descriptor(registry: &Vec<ComponentDescriptor>, wire_id: u16) -> (r: Option<ComponentDescriptor>)
    ensures
        match r {
            None => forall|i: int| 0 <= i < registry@.len() ==> registry@[i].wire_id != wire_id,
            Some(d) => exists|i: int|
                0 <= i < registry@.len() && registry@[i] == d && d.wire_id == wire_id && forall|j: int|
                    0 <= j < i ==> registry@[j].wire_id != wire_id,
        },
{
    let mut i: usize = 0;
    while i < registry.len()
        invariant
            i <= registry@.len(),
            forall|j: int| 0 <= j < i ==> registry@[j].wire_id != wire_id,
        decreases registry@.len() - i,
    {
        if registry[i].wire_id == wire_id {
            return Some(registry[i]);
        }
        i = i + 1;
    }
    None
}

/// Whether a snapshot is due for a client at `now_ms`: something changed,
/// or the longest allowed interval since the last one has passed.
pub open spec fn snapshot_due_at(now_ms: u64, last_sent_ms: u64, interval_ms: u64, changed: bool) -> bool {
    changed || (now_ms >= last_sent_ms && now_ms - last_sent_ms >= interval_ms)
}

/// Computes `snapshot_due_at`; with the default interval of 100 ms an
/// unchanged client still hears from the server ten times a second.
pub fn snapshot_due(now_ms: u64, last_sent_ms: u64, interval_ms: u64, changed: bool) -> (r: bool)
    ensures
        r == snapshot_due_at(now_ms, last_sent_ms, interval_ms, changed),
{
    changed || (now_ms >= last_sent_ms && now_ms - last_sent_ms >= interval_ms)
}

} // verus!
