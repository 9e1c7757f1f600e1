//! The controller's snapshot.

use super::{
    parts_view, short, topics_view, with_broker, with_topic, BrokerInfo, BrokerState,
    PartitionState, State, StateView, TopicInfo, TopicState,
};
use crate::codec::{le, put_le};
use crate::ids::copy_ids;
use crate::proto::fits::lemma_ids_fit;
use crate::proto::lists::{
    behind, id_list, id_row, lemma_encode_next, lemma_id_shaped, lemma_next_row, lemma_rows_ends,
    put_id_list, read_id_list,
};
use crate::proto::schema::{
    append, encode, encode_one, encode_rows, fits, fits_one, law_parsed_fits, lemma_append,
    lemma_fits_row, lemma_texts_fit_row, parse, parse_rows, parse_uint, shaped, shaped_one,
    texts_fit, texts_fit_one, trailing_bytes, Fault, Shape, Shapes, Val, Vals,
};
use crate::proto::wire::{put_i32, put_str, put_u32, put_u64, reads, Reader};
use crate::proto::{error_text, field, reads_row, value, ProtoError, Result};
use vstd::prelude::*;
use vstd::string::*;
use vstd::utf8::*;

verus! {

/// "RLCT"
pub const SNAPSHOT_MAGIC: u32 = 0x524C_4354;

pub open spec fn host_row() -> Shapes {
    field(Shape::U32, field(Shape::Str, Shapes::End))
}

pub open spec fn host_vals(x: BrokerState) -> Vals {
    value(Val::U32(x.id), value(Val::Str(x.addr@), Vals::End))
}

/// A list of brokers.
pub open spec fn host_list(v: Seq<BrokerState>) -> Val {
    Val::List(v.map_values(|x: BrokerState| host_vals(x)))
}

pub proof fn lemma_host_shaped(v: Seq<BrokerState>)
    ensures
        shaped_one(host_list(v), Shape::List(Box::new(host_row()))),
{
    let rows = host_list(v)->List_0;
    assert forall|i: int| 0 <= i < rows.len() implies shaped(#[trigger] rows[i], host_row()) by {
        reveal_with_fuel(shaped, 3);
    }
}

fn put_host(out: &mut Vec<u8>, x: &BrokerState)
    requires
        texts_fit(host_vals(*x)),
    ensures
        final(out)@ == append(old(out)@, host_vals(*x)),
{
    proof {
        reveal_with_fuel(texts_fit, 3);
    }
    put_u32(out, x.id);
    put_str(out, x.addr.as_str());
    proof {
        reveal_with_fuel(append, 3);
    }
}

pub fn put_host_list(out: &mut Vec<u8>, list: &Vec<BrokerState>)
    requires
        texts_fit_one(host_list(list@)),
    ensures
        final(out)@ == old(out)@ + encode_one(host_list(list@)),
{
    let ghost start = out@;
    let ghost rows = host_list(list@)->List_0;
    put_le(out, list.len() as u64, 4);
    let ghost head = out@;
    let mut i: usize = 0;
    assert(out@ =~= head + encode_rows(rows.take(0)));
    while i < list.len()
        invariant
            i <= list@.len(),
            texts_fit_one(host_list(list@)),
            host_list(list@) == Val::List(rows),
            out@ == head + encode_rows(rows.take(i as int)),
        decreases list@.len() - i,
    {
        let ghost before = out@;
        proof {
            lemma_texts_fit_row(host_list(list@), i as int);
        }
        put_host(out, &list[i]);
        proof {
            lemma_encode_next(rows, i as int);
            lemma_append(before, host_vals(list@[i as int]));
            assert(out@ =~= head + encode_rows(rows.take(i + 1)));
        }
        i = i + 1;
    }
    assert(rows.take(i as int) =~= rows);
    assert(out@ =~= start + encode_one(host_list(list@)));
}

fn read_host(r: &mut Reader<'_>) -> (res: Result<BrokerState>)
    ensures
        reads_row(host_row(), old(r)@, final(r)@, res, |x: BrokerState| host_vals(x)),
{
    proof {
        reveal_with_fuel(parse, 3);
    }
    let id: u32 = r.u32()?;
    let addr: String = r.string()?;
    let peer_addr: String = addr.clone();
    Ok(BrokerState { id, addr, peer_addr, alive: false, last_heartbeat_ms: 0 })
}

pub fn read_host_list(r: &mut Reader<'_>) -> (res: Result<Vec<BrokerState>>)
    ensures
        reads(
            Shape::List(Box::new(host_row())),
            old(r)@,
            final(r)@,
            res,
            |x: Vec<BrokerState>| host_list(x@),
        ),
{
    let count: u32 = r.u32()?;
    let ghost body = r@;
    let mut list: Vec<BrokerState> = Vec::new();
    let mut i: u32 = 0;
    let ghost mut done: Seq<Vals> = Seq::empty();
    proof {
        lemma_rows_ends(host_row(), count as nat, body, done, body);
        assert(done =~= list@.map_values(|x: BrokerState| host_vals(x)));
    }
    while i < count
        invariant
            i <= count,
            done == list@.map_values(|x: BrokerState| host_vals(x)),
            parse_uint(old(r)@, 4) == Ok::<(nat, Seq<u8>), Fault>((count as nat, body)),
            parse_rows(host_row(), count as nat, body) == behind(
                done,
                parse_rows(host_row(), (count - i) as nat, r@),
            ),
        decreases count - i,
    {
        proof {
            lemma_next_row(done, host_row(), (count - i) as nat, r@);
        }
        let x: BrokerState = read_host(r)?;
        proof {
            done = done.push(host_vals(x));
        }
        list.push(x);
        assert(done =~= list@.map_values(|x: BrokerState| host_vals(x)));
        i = i + 1;
    }
    proof {
        lemma_rows_ends(host_row(), 0, body, done, r@);
    }
    Ok(list)
}

pub open spec fn part_row() -> Shapes {
    field(
        Shape::I32,
        field(
            Shape::U64,
            field(
                Shape::List(Box::new(id_row())),
                field(Shape::List(Box::new(id_row())), Shapes::End),
            ),
        ),
    )
}

pub open spec fn part_vals(x: PartitionState) -> Vals {
    value(
        Val::I32(x.leader),
        value(
            Val::U64(x.leader_epoch),
            value(id_list(x.replicas@), value(id_list(x.isr@), Vals::End)),
        ),
    )
}

/// A list of partitions.
pub open spec fn part_list(v: Seq<PartitionState>) -> Val {
    Val::List(v.map_values(|x: PartitionState| part_vals(x)))
}

pub proof fn lemma_part_shaped(v: Seq<PartitionState>)
    ensures
        shaped_one(part_list(v), Shape::List(Box::new(part_row()))),
{
    let rows = part_list(v)->List_0;
    assert forall|i: int| 0 <= i < rows.len() implies shaped(#[trigger] rows[i], part_row()) by {
        reveal_with_fuel(shaped, 5);
        lemma_id_shaped(v[i].replicas@);
        lemma_id_shaped(v[i].isr@);
    }
}

fn put_part(out: &mut Vec<u8>, x: &PartitionState)
    ensures
        final(out)@ == append(old(out)@, part_vals(*x)),
{
    put_i32(out, x.leader);
    put_u64(out, x.leader_epoch);
    put_id_list(out, &x.replicas);
    put_id_list(out, &x.isr);
    proof {
        reveal_with_fuel(append, 5);
    }
}

pub fn put_part_list(out: &mut Vec<u8>, list: &Vec<PartitionState>)
    ensures
        final(out)@ == old(out)@ + encode_one(part_list(list@)),
{
    let ghost start = out@;
    let ghost rows = part_list(list@)->List_0;
    put_le(out, list.len() as u64, 4);
    let ghost head = out@;
    let mut i: usize = 0;
    assert(out@ =~= head + encode_rows(rows.take(0)));
    while i < list.len()
        invariant
            i <= list@.len(),
            part_list(list@) == Val::List(rows),
            out@ == head + encode_rows(rows.take(i as int)),
        decreases list@.len() - i,
    {
        let ghost before = out@;
        put_part(out, &list[i]);
        proof {
            lemma_encode_next(rows, i as int);
            lemma_append(before, part_vals(list@[i as int]));
            assert(out@ =~= head + encode_rows(rows.take(i + 1)));
        }
        i = i + 1;
    }
    assert(rows.take(i as int) =~= rows);
    assert(out@ =~= start + encode_one(part_list(list@)));
}

fn read_part(r: &mut Reader<'_>) -> (res: Result<PartitionState>)
    ensures
        reads_row(part_row(), old(r)@, final(r)@, res, |x: PartitionState| part_vals(x)),
{
    proof {
        reveal_with_fuel(parse, 5);
    }
    let leader: i32 = r.i32()?;
    let leader_epoch: u64 = r.u64()?;
    let replicas: Vec<u32> = read_id_list(r)?;
    let isr: Vec<u32> = read_id_list(r)?;
    Ok(PartitionState { leader, leader_epoch, replicas, isr })
}

pub fn read_part_list(r: &mut Reader<'_>) -> (res: Result<Vec<PartitionState>>)
    ensures
        reads(
            Shape::List(Box::new(part_row())),
            old(r)@,
            final(r)@,
            res,
            |x: Vec<PartitionState>| part_list(x@),
        ),
{
    let count: u32 = r.u32()?;
    let ghost body = r@;
    let mut list: Vec<PartitionState> = Vec::new();
    let mut i: u32 = 0;
    let ghost mut done: Seq<Vals> = Seq::empty();
    proof {
        lemma_rows_ends(part_row(), count as nat, body, done, body);
        assert(done =~= list@.map_values(|x: PartitionState| part_vals(x)));
    }
    while i < count
        invariant
            i <= count,
            done == list@.map_values(|x: PartitionState| part_vals(x)),
            parse_uint(old(r)@, 4) == Ok::<(nat, Seq<u8>), Fault>((count as nat, body)),
            parse_rows(part_row(), count as nat, body) == behind(
                done,
                parse_rows(part_row(), (count - i) as nat, r@),
            ),
        decreases count - i,
    {
        proof {
            lemma_next_row(done, part_row(), (count - i) as nat, r@);
        }
        let x: PartitionState = read_part(r)?;
        proof {
            done = done.push(part_vals(x));
        }
        list.push(x);
        assert(done =~= list@.map_values(|x: PartitionState| part_vals(x)));
        i = i + 1;
    }
    proof {
        lemma_rows_ends(part_row(), 0, body, done, r@);
    }
    Ok(list)
}

pub open spec fn named_row() -> Shapes {
    field(Shape::Str, field(Shape::List(Box::new(part_row())), Shapes::End))
}

pub open spec fn named_vals(x: TopicState) -> Vals {
    value(Val::Str(x.name@), value(part_list(x.partitions@), Vals::End))
}

/// A list of topics.
pub open spec fn named_list(v: Seq<TopicState>) -> Val {
    Val::List(v.map_values(|x: TopicState| named_vals(x)))
}

pub proof fn lemma_named_shaped(v: Seq<TopicState>)
    ensures
        shaped_one(named_list(v), Shape::List(Box::new(named_row()))),
{
    let rows = named_list(v)->List_0;
    assert forall|i: int| 0 <= i < rows.len() implies shaped(#[trigger] rows[i], named_row()) by {
        reveal_with_fuel(shaped, 3);
        lemma_part_shaped(v[i].partitions@);
    }
}

fn put_named(out: &mut Vec<u8>, x: &TopicState)
    requires
        texts_fit(named_vals(*x)),
    ensures
        final(out)@ == append(old(out)@, named_vals(*x)),
{
    proof {
        reveal_with_fuel(texts_fit, 3);
    }
    put_str(out, x.name.as_str());
    put_part_list(out, &x.partitions);
    proof {
        reveal_with_fuel(append, 3);
    }
}

pub fn put_named_list(out: &mut Vec<u8>, list: &Vec<TopicState>)
    requires
        texts_fit_one(named_list(list@)),
    ensures
        final(out)@ == old(out)@ + encode_one(named_list(list@)),
{
    let ghost start = out@;
    let ghost rows = named_list(list@)->List_0;
    put_le(out, list.len() as u64, 4);
    let ghost head = out@;
    let mut i: usize = 0;
    assert(out@ =~= head + encode_rows(rows.take(0)));
    while i < list.len()
        invariant
            i <= list@.len(),
            texts_fit_one(named_list(list@)),
            named_list(list@) == Val::List(rows),
            out@ == head + encode_rows(rows.take(i as int)),
        decreases list@.len() - i,
    {
        let ghost before = out@;
        proof {
            lemma_texts_fit_row(named_list(list@), i as int);
        }
        put_named(out, &list[i]);
        proof {
            lemma_encode_next(rows, i as int);
            lemma_append(before, named_vals(list@[i as int]));
            assert(out@ =~= head + encode_rows(rows.take(i + 1)));
        }
        i = i + 1;
    }
    assert(rows.take(i as int) =~= rows);
    assert(out@ =~= start + encode_one(named_list(list@)));
}

fn read_named(r: &mut Reader<'_>) -> (res: Result<TopicState>)
    ensures
        reads_row(named_row(), old(r)@, final(r)@, res, |x: TopicState| named_vals(x)),
{
    proof {
        reveal_with_fuel(parse, 3);
    }
    let name: String = r.string()?;
    let partitions: Vec<PartitionState> = read_part_list(r)?;
    Ok(TopicState { name, partitions })
}

pub fn read_named_list(r: &mut Reader<'_>) -> (res: Result<Vec<TopicState>>)
    ensures
        reads(
            Shape::List(Box::new(named_row())),
            old(r)@,
            final(r)@,
            res,
            |x: Vec<TopicState>| named_list(x@),
        ),
{
    let count: u32 = r.u32()?;
    let ghost body = r@;
    let mut list: Vec<TopicState> = Vec::new();
    let mut i: u32 = 0;
    let ghost mut done: Seq<Vals> = Seq::empty();
    proof {
        lemma_rows_ends(named_row(), count as nat, body, done, body);
        assert(done =~= list@.map_values(|x: TopicState| named_vals(x)));
    }
    while i < count
        invariant
            i <= count,
            done == list@.map_values(|x: TopicState| named_vals(x)),
            parse_uint(old(r)@, 4) == Ok::<(nat, Seq<u8>), Fault>((count as nat, body)),
            parse_rows(named_row(), count as nat, body) == behind(
                done,
                parse_rows(named_row(), (count - i) as nat, r@),
            ),
        decreases count - i,
    {
        proof {
            lemma_next_row(done, named_row(), (count - i) as nat, r@);
        }
        let x: TopicState = read_named(r)?;
        proof {
            done = done.push(named_vals(x));
        }
        list.push(x);
        assert(done =~= list@.map_values(|x: TopicState| named_vals(x)));
        i = i + 1;
    }
    proof {
        lemma_rows_ends(named_row(), 0, body, done, r@);
    }
    Ok(list)
}

pub open spec fn snapshot_row() -> Shapes {
    field(
        Shape::U64,
        field(
            Shape::List(Box::new(host_row())),
            field(Shape::List(Box::new(named_row())), Shapes::End),
        ),
    )
}

/// The fields of a snapshot behind its magic number.
pub open spec fn snapshot_vals(s: State) -> Vals {
    value(
        Val::U64(s.version),
        value(host_list(s.brokers@), value(named_list(s.topics@), Vals::End)),
    )
}

/// The bytes of a snapshot: which brokers there are, and the state of every
/// partition.
pub open spec fn snapshot_bytes(s: State) -> Seq<u8> {
    le(SNAPSHOT_MAGIC as nat, 4) + encode(snapshot_vals(s))
}

/// Every text of a consistent state fits its length field.
pub proof fn lemma_state_texts(s: State)
    requires
        s.ok(),
    ensures
        texts_fit(snapshot_vals(s)),
{
    reveal_with_fuel(texts_fit, 5);
    let hosts = host_list(s.brokers@);
    assert forall|i: int| 0 <= i < hosts->List_0.len() implies texts_fit(
        #[trigger] hosts->List_0[i],
    ) by {
        assert(s@.brokers[i] == s.brokers@[i]@);
        assert(short(s@.brokers[i].addr));
    }
    let named = named_list(s.topics@);
    assert forall|i: int| 0 <= i < named->List_0.len() implies texts_fit(
        #[trigger] named->List_0[i],
    ) by {
        assert(s@.topics[i] == s.topics@[i]@);
        assert(short(s@.topics[i].name));
        lemma_part_texts(s.topics@[i].partitions@);
    }
}

/// There is no text in a partition.
proof fn lemma_part_texts(v: Seq<PartitionState>)
    ensures
        texts_fit_one(part_list(v)),
{
    let list = part_list(v);
    assert forall|i: int| 0 <= i < list->List_0.len() implies texts_fit(
        #[trigger] list->List_0[i],
    ) by {
        reveal_with_fuel(texts_fit, 6);
        lemma_ids_fit(v[i].replicas@);
        lemma_ids_fit(v[i].isr@);
    }
}

/// The brokers of a row as a snapshot keeps them, each put in its place.
pub open spec fn gathered_brokers(bs: Seq<BrokerInfo>) -> Seq<BrokerInfo>
    decreases bs.len(),
{
    if bs.len() == 0 {
        Seq::empty()
    } else {
        with_broker(gathered_brokers(bs.drop_last()), forgotten(bs.last()))
    }
}

/// The topics of a row, each put in its place.
pub open spec fn gathered_topics(ts: Seq<TopicInfo>) -> Seq<TopicInfo>
    decreases ts.len(),
{
    if ts.len() == 0 {
        Seq::empty()
    } else {
        with_topic(gathered_topics(ts.drop_last()), ts.last())
    }
}

/// The state that the rows of a snapshot make up.
pub open spec fn gathered(s: StateView) -> StateView {
    StateView {
        version: s.version,
        brokers: gathered_brokers(s.brokers),
        topics: gathered_topics(s.topics),
    }
}

/// A broker as a snapshot keeps it: nobody is trusted as alive until they
/// heartbeat again.
pub open spec fn forgotten(b: BrokerInfo) -> BrokerInfo {
    BrokerInfo { id: b.id, addr: b.addr, peer: b.addr, alive: false, last: 0 }
}

pub open spec fn malformed_snapshot(f: Fault) -> Seq<char> {
    "malformed snapshot: "@ + error_text(f)
}

/// What is wrong with a snapshot, if anything.
pub open spec fn snapshot_fault(bytes: Seq<u8>) -> Option<Seq<char>> {
    match parse_uint(bytes, 4) {
        Err(_) => Some("truncated"@),
        Ok((magic, rest)) => if magic != SNAPSHOT_MAGIC {
            Some("bad snapshot magic"@)
        } else {
            match parse(snapshot_row(), rest) {
                Err(f) => Some(malformed_snapshot(f)),
                Ok((vals, tail)) => if tail.len() > 0 {
                    Some(malformed_snapshot(Fault::Malformed(trailing_bytes(tail.len()))))
                } else {
                    None
                },
            }
        },
    }
}

/// A state is what a snapshot says: its rows put in their places.
pub open spec fn snapshot_says(bytes: Seq<u8>, s: State) -> bool {
    exists|raw: State| #[trigger]
        snapshot_vals(raw) == parse(snapshot_row(), bytes.skip(4))->Ok_0.0 && s@ == gathered(raw@)
}

fn malformed(e: &ProtoError) -> (text: String)
    ensures
        text@ == malformed_snapshot(e@),
{
    let mut text: String = "malformed snapshot: ".to_owned();
    text.append(e.message().as_str());
    text
}

impl State {
    /// The bytes to persist this state as.
    pub fn persist_snapshot(&self) -> (buf: Vec<u8>)
        requires
            self.ok(),
        ensures
            buf@ == snapshot_bytes(*self),
    {
        proof {
            lemma_state_texts(*self);
            reveal_with_fuel(texts_fit, 4);
            reveal_with_fuel(append, 4);
        }
        let mut buf: Vec<u8> = Vec::new();
        put_u32(&mut buf, SNAPSHOT_MAGIC);
        let ghost head = buf@;
        put_u64(&mut buf, self.version);
        put_host_list(&mut buf, &self.brokers);
        put_named_list(&mut buf, &self.topics);
        proof {
            lemma_append(head, snapshot_vals(*self));
            assert(head =~= le(SNAPSHOT_MAGIC as nat, 4));
        }
        buf
    }

    /// Puts the rows of a snapshot in their places.
    fn gather(raw: State) -> (s: State)
        requires
            fits(snapshot_vals(raw)),
        ensures
            s.ok(),
            s@ == gathered(raw@),
    {
        let ghost rv = raw@;
        let mut s: State = State::new();
        s.version = raw.version;
        assert(s@.brokers =~= gathered_brokers(rv.brokers.take(0)));
        assert(s@.topics =~= Seq::empty());
        proof {
            reveal_with_fuel(fits, 5);
        }
        let ghost hosts = host_list(raw.brokers@);
        let ghost named = named_list(raw.topics@);
        assert(fits_one(hosts));
        assert(fits_one(named));
        let mut i: usize = 0;
        while i < raw.brokers.len()
            invariant
                i <= raw.brokers@.len(),
                rv == raw@,
                hosts == host_list(raw.brokers@),
                fits_one(hosts),
                s.ok(),
                s.version == rv.version,
                s@.topics.len() == 0,
                s@.brokers == gathered_brokers(rv.brokers.take(i as int)),
            decreases raw.brokers@.len() - i,
        {
            proof {
                lemma_fits_row(hosts, i as int);
                reveal_with_fuel(fits, 3);
                assert(rv.brokers[i as int] == raw.brokers@[i as int]@);
                assert(rv.brokers.take(i + 1).drop_last() =~= rv.brokers.take(i as int));
                assert(rv.brokers.take(i + 1).last() == rv.brokers[i as int]);
            }
            let b: &BrokerState = &raw.brokers[i];
            s.put_broker(
                BrokerState {
                    id: b.id,
                    addr: b.addr.clone(),
                    peer_addr: b.addr.clone(),
                    alive: false,
                    last_heartbeat_ms: 0,
                },
            );
            i = i + 1;
        }
        assert(rv.brokers.take(i as int) =~= rv.brokers);
        let ghost bs = s@.brokers;
        let mut k: usize = 0;
        assert(s@.topics =~= gathered_topics(rv.topics.take(0)));
        let topics: Vec<TopicState> = raw.topics;
        while k < topics.len()
            invariant
                k <= topics@.len(),
                rv.topics == topics_view(topics@),
                named == named_list(topics@),
                fits_one(named),
                s.ok(),
                s.version == rv.version,
                s@.brokers == bs,
                s@.topics == gathered_topics(rv.topics.take(k as int)),
            decreases topics@.len() - k,
        {
            proof {
                lemma_fits_row(named, k as int);
                reveal_with_fuel(fits, 3);
                let parts = part_list(topics@[k as int].partitions@);
                assert(fits_one(parts));
                assert(parts->List_0.len() == topics@[k as int].partitions@.len());
                assert(rv.topics[k as int] == topics@[k as int]@);
                assert(rv.topics.take(k + 1).drop_last() =~= rv.topics.take(k as int));
                assert(rv.topics.take(k + 1).last() == rv.topics[k as int]);
            }
            s.put_topic(copy_topic(&topics[k]));
            k = k + 1;
        }
        assert(rv.topics.take(k as int) =~= rv.topics);
        s
    }

    /// The state that a snapshot file says; none there says nothing.
    pub fn load_snapshot(file: Option<&[u8]>) -> (r: std::result::Result<State, String>)
        ensures
            match file {
                None => r matches Ok(s) && s.ok() && s@.version == 0 && s@.brokers.len() == 0
                    && s@.topics.len() == 0,
                Some(bytes) => match snapshot_fault(bytes@) {
                    Some(text) => r is Err && r->Err_0@ == text,
                    None => r matches Ok(s) && s.ok() && snapshot_says(bytes@, s),
                },
            },
    {
        let bytes: &[u8] = match file {
            None => {
                return Ok(State::new());
            },
            Some(b) => b,
        };
        let mut r: Reader<'_> = Reader::new(bytes);
        match r.u32() {
            Err(_) => {
                return Err("truncated".to_owned());
            },
            Ok(magic) => {
                if magic != SNAPSHOT_MAGIC {
                    return Err("bad snapshot magic".to_owned());
                }
            },
        }
        let ghost rest = r@;
        assert(rest == bytes@.skip(4));
        match read_snapshot(&mut r) {
            Err(e) => Err(malformed(&e)),
            Ok(raw) => match r.expect_end() {
                Err(e) => Err(malformed(&e)),
                Ok(_) => {
                    proof {
                        law_parsed_fits(snapshot_row(), rest);
                    }
                    let ghost whole = raw;
                    let s: State = State::gather(raw);
                    assert(snapshot_vals(whole) == parse(snapshot_row(), rest)->Ok_0.0);
                    Ok(s)
                },
            },
        }
    }
}

fn copy_part(p: &PartitionState) -> (r: PartitionState)
    ensures
        r@ == p@,
{
    PartitionState {
        leader: p.leader,
        leader_epoch: p.leader_epoch,
        replicas: copy_ids(&p.replicas),
        isr: copy_ids(&p.isr),
    }
}

fn copy_topic(t: &TopicState) -> (r: TopicState)
    ensures
        r@ == t@,
        r.partitions@.len() == t.partitions@.len(),
{
    let mut partitions: Vec<PartitionState> = Vec::new();
    let mut i: usize = 0;
    while i < t.partitions.len()
        invariant
            i <= t.partitions@.len(),
            partitions@.len() == i,
            forall|k: int| 0 <= k < i ==> (#[trigger] partitions@[k])@ == t.partitions@[k]@,
        decreases t.partitions@.len() - i,
    {
        partitions.push(copy_part(&t.partitions[i]));
        i = i + 1;
    }
    assert(parts_view(partitions@) =~= parts_view(t.partitions@));
    TopicState { name: t.name.clone(), partitions }
}

/// Reads the rows of a snapshot.
fn read_snapshot(r: &mut Reader<'_>) -> (res: Result<State>)
    ensures
        reads_row(snapshot_row(), old(r)@, final(r)@, res, |x: State| snapshot_vals(x)),
{
    proof {
        reveal_with_fuel(parse, 4);
    }
    let version: u64 = r.u64()?;
    let brokers: Vec<BrokerState> = read_host_list(r)?;
    let topics: Vec<TopicState> = read_named_list(r)?;
    Ok(State { version, brokers, topics })
}

} // verus!
