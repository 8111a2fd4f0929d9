//! Replication frame payload: tick, group id, a varint count of entities,
//! then per entity its id (eight bytes), a one-byte count of components, and
//! per component its wire id, a two-byte length and the serialized value.
use vstd::prelude::*;
use crate::bytes::{le_bytes, le_value, push_le, read_le, lemma_le_bytes_len, lemma_le_round_trip, lemma_pow256_values, lemma_le_value_bound, pow256};
use crate::varint::{varint_bytes, parse_varint, push_varint, read_varint, lemma_varint_round_trip, lemma_varint_len, pow128, VARINT_LIMIT};
use crate::wire::copy_range;

verus! {

#[derive(Debug)]
pub struct ComponentUpdate {
    pub wire_id: u16,
    pub bytes: Vec<u8>,
}

#[derive(Debug)]
pub struct EntityUpdate {
    pub entity: u64,
    pub components: Vec<ComponentUpdate>,
}

#[derive(Debug)]
pub struct ReplicationFrame {
    pub tick: u16,
    pub group: u16,
    pub entities: Vec<EntityUpdate>,
}

pub struct ComponentView {
    pub wire_id: u16,
    pub bytes: Seq<u8>,
}

pub struct EntityView {
    pub entity: u64,
    pub components: Seq<ComponentView>,
}

pub struct ReplicationView {
    pub tick: u16,
    pub group: u16,
    pub entities: Seq<EntityView>,
}

impl View for ComponentUpdate {
    type V = ComponentView;

    open spec fn view(&self) -> ComponentView {
        ComponentView { wire_id: self.wire_id, bytes: self.bytes@ }
    }
}

impl View for EntityUpdate {
    type V = EntityView;

    open spec fn view(&self) -> EntityView {
        EntityView { entity: self.entity, components: self.components@.map_values(|c: ComponentUpdate| c@) }
    }
}

impl View for ReplicationFrame {
    type V = ReplicationView;

    open spec fn view(&self) -> ReplicationView {
        ReplicationView { tick: self.tick, group: self.group, entities: self.entities@.map_values(|e: EntityUpdate| e@) }
    }
}

pub open spec fn comp_bytes(c: ComponentView) -> Seq<u8> {
    le_bytes(c.wire_id as nat, 2) + le_bytes(c.bytes.len(), 2) + c.bytes
}

pub open spec fn comps_bytes(cs: Seq<ComponentView>) -> Seq<u8>
    decreases cs.len(),
{
    if cs.len() == 0 {
        Seq::empty()
    } else {
        comp_bytes(cs[0]) + comps_bytes(cs.drop_first())
    }
}

pub open spec fn entity_bytes(e: EntityView) -> Seq<u8> {
    le_bytes(e.entity as nat, 8) + seq![e.components.len() as u8] + comps_bytes(e.components)
}

pub open spec fn entities_bytes(es: Seq<EntityView>) -> Seq<u8>
    decreases es.len(),
{
    if es.len() == 0 {
        Seq::empty()
    } else {
        entity_bytes(es[0]) + entities_bytes(es.drop_first())
    }
}

pub open spec fn replication_bytes(f: ReplicationView) -> Seq<u8> {
    le_bytes(f.tick as nat, 2) + le_bytes(f.group as nat, 2) + varint_bytes(f.entities.len())
        + entities_bytes(f.entities)
}

/// `n` components at the front of `s`, and the bytes they take.
pub open spec fn parse_comps(s: Seq<u8>, n: nat) -> Option<(Seq<ComponentView>, nat)>
    decreases n,
{
    if n == 0 {
        Some((Seq::empty(), 0))
    } else if s.len() < 4 {
        None
    } else {
        let l = le_value(s.subrange(2, 4)) as int;
        if 4 + l > s.len() {
            None
        } else {
            match parse_comps(s.skip(4 + l), (n - 1) as nat) {
                None => None,
                Some((rest, m)) => Some(
                    (
                        seq![ComponentView { wire_id: le_value(s.subrange(0, 2)) as u16, bytes: s.subrange(4, 4 + l) }]
                            + rest,
                        (4 + l + m) as nat,
                    ),
                ),
            }
        }
    }
}

/// `n` entities at the front of `s`, and the bytes they take.
pub open spec fn parse_entities(s: Seq<u8>, n: nat) -> Option<(Seq<EntityView>, nat)>
    decreases n,
{
    if n == 0 {
        Some((Seq::empty(), 0))
    } else if s.len() < 9 {
        None
    } else {
        match parse_comps(s.skip(9), s[8] as nat) {
            None => None,
            Some((cs, k)) => match parse_entities(s.skip(9 + k as int), (n - 1) as nat) {
                None => None,
                Some((rest, m)) => Some(
                    (
                        seq![EntityView { entity: le_value(s.subrange(0, 8)) as u64, components: cs }] + rest,
                        (9 + k + m) as nat,
                    ),
                ),
            },
        }
    }
}

/// The replication frame that `s` holds exactly.
pub open spec fn parse_replication(s: Seq<u8>) -> Option<ReplicationView> {
    if s.len() < 4 {
        None
    } else {
        match parse_varint(s.skip(4), 8) {
            None => None,
            Some((count, k)) => match parse_entities(s.skip(4 + k as int), count) {
                None => None,
                Some((es, m)) => if 4 + k + m == s.len() {
                    Some(
                        ReplicationView {
                            tick: le_value(s.subrange(0, 2)) as u16,
                            group: le_value(s.subrange(2, 4)) as u16,
                            entities: es,
                        },
                    )
                } else {
                    None
                },
            },
        }
    }
}

/// Sizes fit their fields: component values under 64 KiB, fewer than 256
/// components per entity, fewer than 2^56 entities.
pub open spec fn frame_fits(f: ReplicationView) -> bool {
    &&& f.entities.len() < VARINT_LIMIT
    &&& forall|i: int|
        0 <= i < f.entities.len() ==> {
            &&& (#[trigger] f.entities[i]).components.len() <= 255
            &&& forall|j: int|
                0 <= j < f.entities[i].components.len() ==> (#[trigger] f.entities[i].components[j]).bytes.len()
                    <= 65535
        }
}

proof fn lemma_comps_round_trip(cs: Seq<ComponentView>, rest: Seq<u8>)
    requires
        forall|j: int| 0 <= j < cs.len() ==> (#[trigger] cs[j]).bytes.len() <= 65535,
    ensures
        parse_comps(comps_bytes(cs) + rest, cs.len()) == Some((cs, comps_bytes(cs).len())),
    decreases cs.len(),
{
    if cs.len() > 0 {
        lemma_pow256_values();
        let c = cs[0];
        let tail = comps_bytes(cs.drop_first()) + rest;
        let s = comps_bytes(cs) + rest;
        lemma_le_bytes_len(c.wire_id as nat, 2);
        lemma_le_bytes_len(c.bytes.len(), 2);
        lemma_le_round_trip(c.wire_id as nat, 2);
        lemma_le_round_trip(c.bytes.len(), 2);
        assert(forall|j: int| 0 <= j < cs.drop_first().len() ==> (#[trigger] cs.drop_first()[j]) == cs[j + 1]);
        lemma_comps_round_trip(cs.drop_first(), rest);
        let l = c.bytes.len() as int;
        assert(s.subrange(0, 2) =~= le_bytes(c.wire_id as nat, 2));
        assert(s.subrange(2, 4) =~= le_bytes(c.bytes.len(), 2));
        assert(s.subrange(4, 4 + l) =~= c.bytes);
        assert(s.skip(4 + l) =~= tail);
        assert(seq![c] + cs.drop_first() =~= cs);
    }
}

proof fn lemma_entities_round_trip(es: Seq<EntityView>, rest: Seq<u8>)
    requires
        forall|i: int|
            0 <= i < es.len() ==> {
                &&& (#[trigger] es[i]).components.len() <= 255
                &&& forall|j: int|
                    0 <= j < es[i].components.len() ==> (#[trigger] es[i].components[j]).bytes.len() <= 65535
            },
    ensures
        parse_entities(entities_bytes(es) + rest, es.len()) == Some((es, entities_bytes(es).len())),
    decreases es.len(),
{
    if es.len() > 0 {
        lemma_pow256_values();
        let e = es[0];
        let s = entities_bytes(es) + rest;
        let tail = entities_bytes(es.drop_first()) + rest;
        lemma_le_bytes_len(e.entity as nat, 8);
        lemma_le_round_trip(e.entity as nat, 8);
        lemma_comps_round_trip(e.components, tail);
        assert(forall|i: int| 0 <= i < es.drop_first().len() ==> (#[trigger] es.drop_first()[i]) == es[i + 1]);
        lemma_entities_round_trip(es.drop_first(), rest);
        let k = comps_bytes(e.components).len() as int;
        assert(s.subrange(0, 8) =~= le_bytes(e.entity as nat, 8));
        assert(s[8] == e.components.len() as u8);
        assert(s.skip(9) =~= comps_bytes(e.components) + tail);
        assert(s.skip(9 + k) =~= tail);
        assert(seq![e] + es.drop_first() =~= es);
    }
}

/// A replication frame decodes to the frame it was made from.
pub proof fn lemma_replication_round_trip(f: ReplicationView)
    requires
        frame_fits(f),
    ensures
        parse_replication(replication_bytes(f)) == Some(f),
{
    lemma_pow256_values();
    let s = replication_bytes(f);
    let vb = varint_bytes(f.entities.len());
    let eb = entities_bytes(f.entities);
    lemma_le_bytes_len(f.tick as nat, 2);
    lemma_le_bytes_len(f.group as nat, 2);
    lemma_le_round_trip(f.tick as nat, 2);
    lemma_le_round_trip(f.group as nat, 2);
    assert(pow128(8) == VARINT_LIMIT) by {
        reveal_with_fuel(pow128, 9);
    }
    lemma_varint_len(f.entities.len(), 8);
    lemma_varint_round_trip(f.entities.len(), eb, 8);
    lemma_entities_round_trip(f.entities, Seq::empty());
    assert(eb + Seq::<u8>::empty() =~= eb);
    assert(s.subrange(0, 2) =~= le_bytes(f.tick as nat, 2));
    assert(s.subrange(2, 4) =~= le_bytes(f.group as nat, 2));
    assert(s.skip(4) =~= vb + eb);
    assert(s.skip(4 + vb.len() as int) =~= eb + Seq::<u8>::empty());
}

fn write_components(out: &mut Vec<u8>, cs: &Vec<ComponentUpdate>)
    requires
        forall|j: int| 0 <= j < cs@.len() ==> (#[trigger] cs@[j]).bytes@.len() <= 65535,
    ensures
        final(out)@ == old(out)@ + comps_bytes(cs@.map_values(|c: ComponentUpdate| c@)),
{
    let ghost all = cs@.map_values(|c: ComponentUpdate| c@);
    let ghost o = out@;
    let mut i: usize = 0;
    assert(all.skip(0) =~= all);
    while i < cs.len()
        invariant
            i <= cs@.len(),
            all == cs@.map_values(|c: ComponentUpdate| c@),
            forall|j: int| 0 <= j < cs@.len() ==> (#[trigger] cs@[j]).bytes@.len() <= 65535,
            out@ + comps_bytes(all.skip(i as int)) == o + comps_bytes(all),
        decreases cs@.len() - i,
    {
        let c = &cs[i];
        let ghost before = out@;
        assert(all.skip(i as int).drop_first() =~= all.skip(i + 1));
        assert(all.skip(i as int)[0] == c@);
        push_le(out, c.wire_id as u64, 2);
        push_le(out, c.bytes.len() as u64, 2);
        let mut j: usize = 0;
        let ghost mid = out@;
        while j < c.bytes.len()
            invariant
                j <= c.bytes@.len(),
                out@ == mid + c.bytes@.take(j as int),
            decreases c.bytes@.len() - j,
        {
            out.push(c.bytes[j]);
            assert(c.bytes@.take(j + 1) =~= c.bytes@.take(j as int).push(c.bytes@[j as int]));
            j = j + 1;
        }
        assert(c.bytes@.take(j as int) =~= c.bytes@);
        assert(out@ =~= before + comp_bytes(c@));
        assert(out@ + comps_bytes(all.skip(i + 1)) =~= before + comps_bytes(all.skip(i as int)));
        i = i + 1;
    }
    assert(all.skip(i as int) =~= Seq::<ComponentView>::empty());
    assert(out@ + Seq::<u8>::empty() =~= out@);
}

/// Encodes a replication frame.
pub fn encode_replication(f: &ReplicationFrame) -> (r: Vec<u8>)
    requires
        frame_fits(f@),
    ensures
        r@ == replication_bytes(f@),
{
    let ghost all = f@.entities;
    let mut out: Vec<u8> = Vec::new();
    push_le(&mut out, f.tick as u64, 2);
    push_le(&mut out, f.group as u64, 2);
    push_varint(&mut out, f.entities.len() as u64);
    let ghost o = out@;
    let mut i: usize = 0;
    assert(all.skip(0) =~= all);
    while i < f.entities.len()
        invariant
            i <= f.entities@.len(),
            all == f@.entities,
            frame_fits(f@),
            out@ + entities_bytes(all.skip(i as int)) == o + entities_bytes(all),
        decreases f.entities@.len() - i,
    {
        let e = &f.entities[i];
        let ghost before = out@;
        assert(all[i as int] == e@);
        assert(all.skip(i as int).drop_first() =~= all.skip(i + 1));
        assert(all.skip(i as int)[0] == e@);
        assert(e@.components.len() <= 255);
        assert forall|j: int| 0 <= j < e.components@.len() implies (#[trigger] e.components@[j]).bytes@.len() <= 65535 by {
            assert(all[i as int].components[j] == e.components@[j]@);
        }
        push_le(&mut out, e.entity, 8);
        out.push(e.components.len() as u8);
        write_components(&mut out, &e.components);
        assert(out@ =~= before + entity_bytes(e@));
        assert(out@ + entities_bytes(all.skip(i + 1)) =~= before + entities_bytes(all.skip(i as int)));
        i = i + 1;
    }
    assert(all.skip(i as int) =~= Seq::<EntityView>::empty());
    assert(out@ + Seq::<u8>::empty() =~= out@);
    assert(out@ =~= replication_bytes(f@));
    out
}

fn decode_components(buf: &[u8], pos0: usize, n: u8) -> (r: Option<(Vec<ComponentUpdate>, usize)>)
    requires
        pos0 <= buf@.len(),
    ensures
        match r {
            None => parse_comps(buf@.skip(pos0 as int), n as nat) is None,
            Some((cs, m)) => parse_comps(buf@.skip(pos0 as int), n as nat) == Some(
                (cs@.map_values(|c: ComponentUpdate| c@), m as nat),
            ) && pos0 + m <= buf@.len(),
        },
{
    let len = buf.len();
    let mut out: Vec<ComponentUpdate> = Vec::new();
    let mut pos: usize = pos0;
    let mut i: u8 = 0;
    proof {
        lemma_pow256_values();
    }
    while i < n
        invariant
            pos0 <= pos <= len == buf@.len(),
            i <= n,
            pow256(2) == 65536,
            parse_comps(buf@.skip(pos0 as int), n as nat) == match parse_comps(buf@.skip(pos as int), (n - i) as nat) {
                None => None::<(Seq<ComponentView>, nat)>,
                Some((rest, m)) => Some((out@.map_values(|c: ComponentUpdate| c@) + rest, (pos - pos0 + m) as nat)),
            },
        decreases n - i,
    {
        let ghost s = buf@.skip(pos as int);
        if len - pos < 4 {
            return None;
        }
        let w = read_le(buf, pos, 2);
        let l = read_le(buf, pos + 2, 2);
        let (w, l) = match (w, l) {
            (Some(w), Some(l)) => (w, l),
            _ => return None,
        };
        proof {
            lemma_le_value_bound(buf@.subrange(pos as int, pos + 2));
            lemma_le_value_bound(buf@.subrange(pos + 2, pos + 4));
        }
        assert(s.subrange(0, 2) =~= buf@.subrange(pos as int, pos + 2));
        assert(s.subrange(2, 4) =~= buf@.subrange(pos + 2, pos + 4));
        let l = l as usize;
        if l > len - pos - 4 {
            return None;
        }
        let bytes = copy_range(buf, pos + 4, pos + 4 + l);
        assert(s.subrange(4, 4 + l as int) =~= buf@.subrange(pos + 4, pos + 4 + l));
        assert(s.skip(4 + l as int) =~= buf@.skip(pos + 4 + l));
        let c = ComponentUpdate { wire_id: w as u16, bytes };
        let ghost done = out@.map_values(|c: ComponentUpdate| c@);
        out.push(c);
        assert(out@.map_values(|c: ComponentUpdate| c@) =~= done.push(c@));
        proof {
            if let Some((rest, m)) = parse_comps(buf@.skip(pos + 4 + l), (n - i - 1) as nat) {
                assert(done + (seq![c@] + rest) =~= done.push(c@) + rest);
            }
        }
        pos = pos + 4 + l;
        i = i + 1;
    }
    assert(out@.map_values(|c: ComponentUpdate| c@) + Seq::<ComponentView>::empty() =~= out@.map_values(|c: ComponentUpdate| c@));
    Some((out, pos - pos0))
}

fn decode_entities(buf: &[u8], pos0: usize, n: u64) -> (r: Option<(Vec<EntityUpdate>, usize)>)
    requires
        pos0 <= buf@.len(),
    ensures
        match r {
            None => parse_entities(buf@.skip(pos0 as int), n as nat) is None,
            Some((es, m)) => parse_entities(buf@.skip(pos0 as int), n as nat) == Some(
                (es@.map_values(|e: EntityUpdate| e@), m as nat),
            ) && pos0 + m <= buf@.len(),
        },
{
    let len = buf.len();
    let mut out: Vec<EntityUpdate> = Vec::new();
    let mut pos: usize = pos0;
    let mut i: u64 = 0;
    proof {
        lemma_pow256_values();
    }
    while i < n
        invariant
            pos0 <= pos <= len == buf@.len(),
            i <= n,
            pow256(8) == 0x1_0000_0000_0000_0000,
            parse_entities(buf@.skip(pos0 as int), n as nat) == match parse_entities(buf@.skip(pos as int), (n - i) as nat) {
                None => None::<(Seq<EntityView>, nat)>,
                Some((rest, m)) => Some((out@.map_values(|e: EntityUpdate| e@) + rest, (pos - pos0 + m) as nat)),
            },
        decreases n - i,
    {
        let ghost s = buf@.skip(pos as int);
        if len - pos < 9 {
            return None;
        }
        let id = match read_le(buf, pos, 8) {
            Some(id) => id,
            None => return None,
        };
        proof {
            lemma_le_value_bound(buf@.subrange(pos as int, pos + 8));
        }
        assert(s.subrange(0, 8) =~= buf@.subrange(pos as int, pos + 8));
        let count = buf[pos + 8];
        assert(s[8] == count);
        assert(s.skip(9) =~= buf@.skip(pos + 9));
        let (cs, k) = match decode_components(buf, pos + 9, count) {
            Some(x) => x,
            None => return None,
        };
        assert(s.skip(9 + k as int) =~= buf@.skip(pos + 9 + k));
        let e = EntityUpdate { entity: id, components: cs };
        let ghost done = out@.map_values(|e: EntityUpdate| e@);
        out.push(e);
        assert(out@.map_values(|e: EntityUpdate| e@) =~= done.push(e@));
        proof {
            if let Some((rest, m)) = parse_entities(buf@.skip(pos + 9 + k), (n - i - 1) as nat) {
                assert(done + (seq![e@] + rest) =~= done.push(e@) + rest);
            }
        }
        pos = pos + 9 + k;
        i = i + 1;
    }
    assert(out@.map_values(|e: EntityUpdate| e@) + Seq::<EntityView>::empty() =~= out@.map_values(|e: EntityUpdate| e@));
    Some((out, pos - pos0))
}

/// Decodes a replication frame that fills `buf` exactly.
pub fn decode_replication(buf: &[u8]) -> (r: Option<ReplicationFrame>)
    ensures
        match r {
            None => parse_replication(buf@) is None,
            Some(f) => parse_replication(buf@) == Some(f@),
        },
{
    let len = buf.len();
    if len < 4 {
        return None;
    }
    let tick = read_le(buf, 0, 2);
    let group = read_le(buf, 2, 2);
    let (tick, group) = match (tick, group) {
        (Some(t), Some(g)) => (t, g),
        _ => return None,
    };
    proof {
        lemma_pow256_values();
        lemma_le_value_bound(buf@.subrange(0, 2));
        lemma_le_value_bound(buf@.subrange(2, 4));
    }
    let (count, k) = match read_varint(buf, 4) {
        Some(x) => x,
        None => return None,
    };
    proof {
        crate::varint::lemma_parse_varint_bound(buf@.skip(4), 8);
    }
    assert(buf@.skip(4).skip(k as int) =~= buf@.skip(4 + k as int));
    let (es, m) = match decode_entities(buf, 4 + k, count) {
        Some(x) => x,
        None => return None,
    };
    if 4 + k + m != len {
        return None;
    }
    let f = ReplicationFrame { tick: tick as u16, group: group as u16, entities: es };
    Some(f)
}

} // verus!
