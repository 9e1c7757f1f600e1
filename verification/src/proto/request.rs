//! Requests and their frames.

use super::lists::{
    behind, id_list, id_row, lemma_encode_next, lemma_id_shaped, lemma_name_shaped, lemma_next_row,
    lemma_rows_ends, name_list, name_row, put_id_list, put_name_list, read_id_list, read_name_list,
};
use super::schema::{
    append, encode_one, encode_rows, fits, lemma_append, parse, parse_rows, parse_uint, shaped,
    shaped_one, texts_fit, trailing_bytes, Fault, Shape, Shapes, Val, Vals,
};
use super::wire::{put_bytes, put_key, put_str, put_u32, put_u64, put_u8, reads, Reader};
use super::{
    field, finish_frame, frame, frame_header, law_message_roundtrip, law_message_trailing,
    law_message_truncated, lemma_draft_frame, message, opt_view, parse_message, read_header,
    reads_row, value, Acks, ProtoError, Result,
};
use crate::codec::put_le;
use vstd::prelude::*;

verus! {

pub const MSG_CREATE_TOPIC: u8 = 1;

pub const MSG_METADATA: u8 = 2;

pub const MSG_PRODUCE: u8 = 3;

pub const MSG_FETCH: u8 = 4;

pub const MSG_COMMIT_OFFSET: u8 = 5;

pub const MSG_FETCH_OFFSET: u8 = 6;

pub const MSG_JOIN_GROUP: u8 = 7;

pub const MSG_HEARTBEAT: u8 = 8;

pub const MSG_LEAVE_GROUP: u8 = 9;

pub const MSG_REPLICA_FETCH: u8 = 10;

pub const MSG_EPOCH_CHECK: u8 = 11;

pub const MSG_REGISTER_BROKER: u8 = 12;

pub const MSG_BROKER_HEARTBEAT: u8 = 13;

pub const MSG_ALTER_ISR: u8 = 14;

pub const MSG_CONTROLLER_METADATA: u8 = 15;

#[derive(Debug, Clone, PartialEq, Eq)]
pub struct ProduceRecord {
    pub key: Option<Vec<u8>>,
    pub value: Vec<u8>,
}

#[derive(Debug, Clone, PartialEq, Eq)]
pub enum Request {
    CreateTopic {
        topic: String,
        partitions: u32,
        /// 0 is treated as 1 (standalone-era clients).
        replication_factor: u32,
    },
    Metadata,
    Produce {
        topic: String,
        partition: u32,
        acks: Acks,
        /// The leader epoch the client believes; 0 = don't care. A stale
        /// nonzero epoch is rejected with FencedEpoch.
        leader_epoch: u64,
        records: Vec<ProduceRecord>,
    },
    Fetch {
        topic: String,
        partition: u32,
        offset: u64,
        max_bytes: u32,
        max_wait_ms: u32,
    },
    CommitOffset {
        group: String,
        topic: String,
        partition: u32,
        offset: u64,
        /// Empty = unfenced standalone commit. Otherwise the commit is
        /// rejected unless (member_id, generation) match the group's current
        /// membership — zombie fencing.
        member_id: String,
        generation: u64,
    },
    FetchOffset {
        group: String,
        topic: String,
        partition: u32,
    },
    JoinGroup {
        group: String,
        /// Empty = new member; the broker assigns an id.
        member_id: String,
        session_timeout_ms: u32,
        topics: Vec<String>,
    },
    Heartbeat {
        group: String,
        member_id: String,
        generation: u64,
    },
    LeaveGroup {
        group: String,
        member_id: String,
    },
    ReplicaFetch {
        topic: String,
        partition: u32,
        follower_id: u32,
        leader_epoch: u64,
        offset: u64,
        max_bytes: u32,
        max_wait_ms: u32,
    },
    /// "Where did `epoch` end in your history?" — asked by a new follower
    /// before fetching, so it can truncate a divergent suffix.
    EpochCheck {
        topic: String,
        partition: u32,
        epoch: u64,
    },
    RegisterBroker {
        broker_id: u32,
        /// Where clients should dial this broker.
        addr: String,
        /// Where other brokers should dial it (same as `addr` by default).
        peer_addr: String,
    },
    BrokerHeartbeat {
        broker_id: u32,
        metadata_version: u64,
    },
    AlterIsr {
        topic: String,
        partition: u32,
        leader_epoch: u64,
        isr: Vec<u32>,
    },
    ControllerMetadata,
}

pub open spec fn produced_row() -> Shapes {
    field(Shape::OptBytes, field(Shape::Bytes, Shapes::End))
}

pub open spec fn produced_vals(x: ProduceRecord) -> Vals {
    value(Val::OptBytes(opt_view(x.key)), value(Val::Bytes(x.value@), Vals::End))
}

/// A list of records to produce.
pub open spec fn produced_list(v: Seq<ProduceRecord>) -> Val {
    Val::List(v.map_values(|x: ProduceRecord| produced_vals(x)))
}

pub proof fn lemma_produced_shaped(v: Seq<ProduceRecord>)
    ensures
        shaped_one(produced_list(v), Shape::List(Box::new(produced_row()))),
{
    let rows = produced_list(v)->List_0;
    assert forall|i: int| 0 <= i < rows.len() implies shaped(
        #[trigger] rows[i],
        produced_row(),
    ) by {
        reveal_with_fuel(shaped, 3);
    }
}

fn put_produced(out: &mut Vec<u8>, x: &ProduceRecord)
    ensures
        final(out)@ == append(old(out)@, produced_vals(*x)),
{
    put_key(out, &x.key);
    put_bytes(out, x.value.as_slice());
    proof {
        reveal_with_fuel(append, 3);
    }
}

pub fn put_produced_list(out: &mut Vec<u8>, list: &Vec<ProduceRecord>)
    ensures
        final(out)@ == old(out)@ + encode_one(produced_list(list@)),
{
    let ghost start = out@;
    let ghost rows = produced_list(list@)->List_0;
    put_le(out, list.len() as u64, 4);
    let ghost head = out@;
    let mut i: usize = 0;
    assert(out@ =~= head + encode_rows(rows.take(0)));
    while i < list.len()
        invariant
            i <= list@.len(),
            produced_list(list@) == Val::List(rows),
            out@ == head + encode_rows(rows.take(i as int)),
        decreases list@.len() - i,
    {
        let ghost before = out@;
        put_produced(out, &list[i]);
        proof {
            lemma_encode_next(rows, i as int);
            lemma_append(before, produced_vals(list@[i as int]));
            assert(out@ =~= head + encode_rows(rows.take(i + 1)));
        }
        i = i + 1;
    }
    assert(rows.take(i as int) =~= rows);
    assert(out@ =~= start + encode_one(produced_list(list@)));
}

fn read_produced(r: &mut Reader<'_>) -> (res: Result<ProduceRecord>)
    ensures
        reads_row(produced_row(), old(r)@, final(r)@, res, |x: ProduceRecord| produced_vals(x)),
{
    proof {
        reveal_with_fuel(parse, 3);
    }
    let key: Option<Vec<u8>> = r.opt_bytes()?;
    let value: Vec<u8> = r.bytes()?;
    Ok(ProduceRecord { key, value })
}

pub fn read_produced_list(r: &mut Reader<'_>) -> (res: Result<Vec<ProduceRecord>>)
    ensures
        reads(
            Shape::List(Box::new(produced_row())),
            old(r)@,
            final(r)@,
            res,
            |x: Vec<ProduceRecord>| produced_list(x@),
        ),
{
    let count: u32 = r.u32()?;
    let ghost body = r@;
    let mut list: Vec<ProduceRecord> = Vec::new();
    let mut i: u32 = 0;
    let ghost mut done: Seq<Vals> = Seq::empty();
    proof {
        lemma_rows_ends(produced_row(), count as nat, body, done, body);
        assert(done =~= list@.map_values(|x: ProduceRecord| produced_vals(x)));
    }
    while i < count
        invariant
            i <= count,
            done == list@.map_values(|x: ProduceRecord| produced_vals(x)),
            parse_uint(old(r)@, 4) == Ok::<(nat, Seq<u8>), Fault>((count as nat, body)),
            parse_rows(produced_row(), count as nat, body) == behind(
                done,
                parse_rows(produced_row(), (count - i) as nat, r@),
            ),
        decreases count - i,
    {
        proof {
            lemma_next_row(done, produced_row(), (count - i) as nat, r@);
        }
        let x: ProduceRecord = read_produced(r)?;
        proof {
            done = done.push(produced_vals(x));
        }
        list.push(x);
        assert(done =~= list@.map_values(|x: ProduceRecord| produced_vals(x)));
        i = i + 1;
    }
    proof {
        lemma_rows_ends(produced_row(), 0, body, done, r@);
    }
    Ok(list)
}

/// The number that stands for the type of a request on the wire.
pub open spec fn request_tag(x: Request) -> u8 {
    match x {
        Request::CreateTopic { .. } => MSG_CREATE_TOPIC,
        Request::Metadata => MSG_METADATA,
        Request::Produce { .. } => MSG_PRODUCE,
        Request::Fetch { .. } => MSG_FETCH,
        Request::CommitOffset { .. } => MSG_COMMIT_OFFSET,
        Request::FetchOffset { .. } => MSG_FETCH_OFFSET,
        Request::JoinGroup { .. } => MSG_JOIN_GROUP,
        Request::Heartbeat { .. } => MSG_HEARTBEAT,
        Request::LeaveGroup { .. } => MSG_LEAVE_GROUP,
        Request::ReplicaFetch { .. } => MSG_REPLICA_FETCH,
        Request::EpochCheck { .. } => MSG_EPOCH_CHECK,
        Request::RegisterBroker { .. } => MSG_REGISTER_BROKER,
        Request::BrokerHeartbeat { .. } => MSG_BROKER_HEARTBEAT,
        Request::AlterIsr { .. } => MSG_ALTER_ISR,
        Request::ControllerMetadata => MSG_CONTROLLER_METADATA,
    }
}

/// The fields of a request, in wire order.
pub open spec fn request_vals(x: Request) -> Vals {
    match x {
        Request::CreateTopic { topic, partitions, replication_factor } => value(
            Val::Str(topic@),
            value(Val::U32(partitions), value(Val::U32(replication_factor), Vals::End)),
        ),
        Request::Metadata => Vals::End,
        Request::Produce { topic, partition, acks, leader_epoch, records } => value(
            Val::Str(topic@),
            value(
                Val::U32(partition),
                value(
                    Val::Acks(acks.number()),
                    value(Val::U64(leader_epoch), value(produced_list(records@), Vals::End)),
                ),
            ),
        ),
        Request::Fetch { topic, partition, offset, max_bytes, max_wait_ms } => value(
            Val::Str(topic@),
            value(
                Val::U32(partition),
                value(
                    Val::U64(offset),
                    value(Val::U32(max_bytes), value(Val::U32(max_wait_ms), Vals::End)),
                ),
            ),
        ),
        Request::CommitOffset {
            group,
            topic,
            partition,
            offset,
            member_id,
            generation,
        } => value(
            Val::Str(group@),
            value(
                Val::Str(topic@),
                value(
                    Val::U32(partition),
                    value(
                        Val::U64(offset),
                        value(Val::Str(member_id@), value(Val::U64(generation), Vals::End)),
                    ),
                ),
            ),
        ),
        Request::FetchOffset { group, topic, partition } => value(
            Val::Str(group@),
            value(Val::Str(topic@), value(Val::U32(partition), Vals::End)),
        ),
        Request::JoinGroup { group, member_id, session_timeout_ms, topics } => value(
            Val::Str(group@),
            value(
                Val::Str(member_id@),
                value(Val::U32(session_timeout_ms), value(name_list(topics@), Vals::End)),
            ),
        ),
        Request::Heartbeat { group, member_id, generation } => value(
            Val::Str(group@),
            value(Val::Str(member_id@), value(Val::U64(generation), Vals::End)),
        ),
        Request::LeaveGroup { group, member_id } => value(
            Val::Str(group@),
            value(Val::Str(member_id@), Vals::End),
        ),
        Request::ReplicaFetch {
            topic,
            partition,
            follower_id,
            leader_epoch,
            offset,
            max_bytes,
            max_wait_ms,
        } => value(
            Val::Str(topic@),
            value(
                Val::U32(partition),
                value(
                    Val::U32(follower_id),
                    value(
                        Val::U64(leader_epoch),
                        value(
                            Val::U64(offset),
                            value(Val::U32(max_bytes), value(Val::U32(max_wait_ms), Vals::End)),
                        ),
                    ),
                ),
            ),
        ),
        Request::EpochCheck { topic, partition, epoch } => value(
            Val::Str(topic@),
            value(Val::U32(partition), value(Val::U64(epoch), Vals::End)),
        ),
        Request::RegisterBroker { broker_id, addr, peer_addr } => value(
            Val::U32(broker_id),
            value(Val::Str(addr@), value(Val::Str(peer_addr@), Vals::End)),
        ),
        Request::BrokerHeartbeat { broker_id, metadata_version } => value(
            Val::U32(broker_id),
            value(Val::U64(metadata_version), Vals::End),
        ),
        Request::AlterIsr { topic, partition, leader_epoch, isr } => value(
            Val::Str(topic@),
            value(
                Val::U32(partition),
                value(Val::U64(leader_epoch), value(id_list(isr@), Vals::End)),
            ),
        ),
        Request::ControllerMetadata => Vals::End,
    }
}

/// The fields that a request type has, where there is such a type.
pub open spec fn request_shape(tag: u8) -> Option<Shapes> {
    if tag == MSG_CREATE_TOPIC {
        Some(field(Shape::Str, field(Shape::U32, field(Shape::U32, Shapes::End))))
    } else if tag == MSG_METADATA {
        Some(Shapes::End)
    } else if tag == MSG_PRODUCE {
        Some(field(
            Shape::Str,
            field(
                Shape::U32,
                field(
                    Shape::Acks,
                    field(Shape::U64, field(Shape::List(Box::new(produced_row())), Shapes::End)),
                ),
            ),
        ))
    } else if tag == MSG_FETCH {
        Some(field(
            Shape::Str,
            field(Shape::U32, field(Shape::U64, field(Shape::U32, field(Shape::U32, Shapes::End)))),
        ))
    } else if tag == MSG_COMMIT_OFFSET {
        Some(field(
            Shape::Str,
            field(
                Shape::Str,
                field(
                    Shape::U32,
                    field(Shape::U64, field(Shape::Str, field(Shape::U64, Shapes::End))),
                ),
            ),
        ))
    } else if tag == MSG_FETCH_OFFSET {
        Some(field(Shape::Str, field(Shape::Str, field(Shape::U32, Shapes::End))))
    } else if tag == MSG_JOIN_GROUP {
        Some(field(
            Shape::Str,
            field(
                Shape::Str,
                field(Shape::U32, field(Shape::List(Box::new(name_row())), Shapes::End)),
            ),
        ))
    } else if tag == MSG_HEARTBEAT {
        Some(field(Shape::Str, field(Shape::Str, field(Shape::U64, Shapes::End))))
    } else if tag == MSG_LEAVE_GROUP {
        Some(field(Shape::Str, field(Shape::Str, Shapes::End)))
    } else if tag == MSG_REPLICA_FETCH {
        Some(field(
            Shape::Str,
            field(
                Shape::U32,
                field(
                    Shape::U32,
                    field(
                        Shape::U64,
                        field(Shape::U64, field(Shape::U32, field(Shape::U32, Shapes::End))),
                    ),
                ),
            ),
        ))
    } else if tag == MSG_EPOCH_CHECK {
        Some(field(Shape::Str, field(Shape::U32, field(Shape::U64, Shapes::End))))
    } else if tag == MSG_REGISTER_BROKER {
        Some(field(Shape::U32, field(Shape::Str, field(Shape::Str, Shapes::End))))
    } else if tag == MSG_BROKER_HEARTBEAT {
        Some(field(Shape::U32, field(Shape::U64, Shapes::End)))
    } else if tag == MSG_ALTER_ISR {
        Some(field(
            Shape::Str,
            field(
                Shape::U32,
                field(Shape::U64, field(Shape::List(Box::new(id_row())), Shapes::End)),
            ),
        ))
    } else if tag == MSG_CONTROLLER_METADATA {
        Some(Shapes::End)
    } else {
        None
    }
}

/// The number that stands for the type of a request on the wire.
fn request_type(req: &Request) -> (tag: u8)
    ensures
        tag == request_tag(*req),
{
    match req {
        Request::CreateTopic { .. } => MSG_CREATE_TOPIC,
        Request::Metadata => MSG_METADATA,
        Request::Produce { .. } => MSG_PRODUCE,
        Request::Fetch { .. } => MSG_FETCH,
        Request::CommitOffset { .. } => MSG_COMMIT_OFFSET,
        Request::FetchOffset { .. } => MSG_FETCH_OFFSET,
        Request::JoinGroup { .. } => MSG_JOIN_GROUP,
        Request::Heartbeat { .. } => MSG_HEARTBEAT,
        Request::LeaveGroup { .. } => MSG_LEAVE_GROUP,
        Request::ReplicaFetch { .. } => MSG_REPLICA_FETCH,
        Request::EpochCheck { .. } => MSG_EPOCH_CHECK,
        Request::RegisterBroker { .. } => MSG_REGISTER_BROKER,
        Request::BrokerHeartbeat { .. } => MSG_BROKER_HEARTBEAT,
        Request::AlterIsr { .. } => MSG_ALTER_ISR,
        Request::ControllerMetadata => MSG_CONTROLLER_METADATA,
    }
}

/// Appends the fields of a request.
#[verifier::rlimit(30)]
fn put_request(out: &mut Vec<u8>, req: &Request)
    requires
        texts_fit(request_vals(*req)),
    ensures
        final(out)@ == append(old(out)@, request_vals(*req)),
{
    match req {
        Request::CreateTopic { topic, partitions, replication_factor } => {
            proof {
                reveal_with_fuel(append, 4);
                reveal_with_fuel(texts_fit, 4);
            }
            put_str(out, topic.as_str());
            put_u32(out, *partitions);
            put_u32(out, *replication_factor);
        },
        Request::Metadata => {
        },
        Request::Produce { topic, partition, acks, leader_epoch, records } => {
            proof {
                reveal_with_fuel(append, 6);
                reveal_with_fuel(texts_fit, 6);
            }
            put_str(out, topic.as_str());
            put_u32(out, *partition);
            put_u8(out, acks.to_u8());
            put_u64(out, *leader_epoch);
            put_produced_list(out, records);
        },
        Request::Fetch { topic, partition, offset, max_bytes, max_wait_ms } => {
            proof {
                reveal_with_fuel(append, 6);
                reveal_with_fuel(texts_fit, 6);
            }
            put_str(out, topic.as_str());
            put_u32(out, *partition);
            put_u64(out, *offset);
            put_u32(out, *max_bytes);
            put_u32(out, *max_wait_ms);
        },
        Request::CommitOffset { group, topic, partition, offset, member_id, generation } => {
            proof {
                reveal_with_fuel(append, 7);
                reveal_with_fuel(texts_fit, 7);
            }
            put_str(out, group.as_str());
            put_str(out, topic.as_str());
            put_u32(out, *partition);
            put_u64(out, *offset);
            put_str(out, member_id.as_str());
            put_u64(out, *generation);
        },
        Request::FetchOffset { group, topic, partition } => {
            proof {
                reveal_with_fuel(append, 4);
                reveal_with_fuel(texts_fit, 4);
            }
            put_str(out, group.as_str());
            put_str(out, topic.as_str());
            put_u32(out, *partition);
        },
        Request::JoinGroup { group, member_id, session_timeout_ms, topics } => {
            proof {
                reveal_with_fuel(append, 5);
                reveal_with_fuel(texts_fit, 5);
            }
            put_str(out, group.as_str());
            put_str(out, member_id.as_str());
            put_u32(out, *session_timeout_ms);
            put_name_list(out, topics);
        },
        Request::Heartbeat { group, member_id, generation } => {
            proof {
                reveal_with_fuel(append, 4);
                reveal_with_fuel(texts_fit, 4);
            }
            put_str(out, group.as_str());
            put_str(out, member_id.as_str());
            put_u64(out, *generation);
        },
        Request::LeaveGroup { group, member_id } => {
            proof {
                reveal_with_fuel(append, 3);
                reveal_with_fuel(texts_fit, 3);
            }
            put_str(out, group.as_str());
            put_str(out, member_id.as_str());
        },
        Request::ReplicaFetch {
            topic,
            partition,
            follower_id,
            leader_epoch,
            offset,
            max_bytes,
            max_wait_ms,
        } => {
            proof {
                reveal_with_fuel(append, 8);
                reveal_with_fuel(texts_fit, 8);
            }
            put_str(out, topic.as_str());
            put_u32(out, *partition);
            put_u32(out, *follower_id);
            put_u64(out, *leader_epoch);
            put_u64(out, *offset);
            put_u32(out, *max_bytes);
            put_u32(out, *max_wait_ms);
        },
        Request::EpochCheck { topic, partition, epoch } => {
            proof {
                reveal_with_fuel(append, 4);
                reveal_with_fuel(texts_fit, 4);
            }
            put_str(out, topic.as_str());
            put_u32(out, *partition);
            put_u64(out, *epoch);
        },
        Request::RegisterBroker { broker_id, addr, peer_addr } => {
            proof {
                reveal_with_fuel(append, 4);
                reveal_with_fuel(texts_fit, 4);
            }
            put_u32(out, *broker_id);
            put_str(out, addr.as_str());
            put_str(out, peer_addr.as_str());
        },
        Request::BrokerHeartbeat { broker_id, metadata_version } => {
            proof {
                reveal_with_fuel(append, 3);
                reveal_with_fuel(texts_fit, 3);
            }
            put_u32(out, *broker_id);
            put_u64(out, *metadata_version);
        },
        Request::AlterIsr { topic, partition, leader_epoch, isr } => {
            proof {
                reveal_with_fuel(append, 5);
                reveal_with_fuel(texts_fit, 5);
            }
            put_str(out, topic.as_str());
            put_u32(out, *partition);
            put_u64(out, *leader_epoch);
            put_id_list(out, isr);
        },
        Request::ControllerMetadata => {
        },
    }
}

/// The frame of a request. Every text in it is at most 65535 bytes long.
pub fn encode_request(req: &Request, correlation_id: u32) -> (out: Vec<u8>)
    requires
        texts_fit(request_vals(*req)),
    ensures
        out@ == frame(request_tag(*req), correlation_id, request_vals(*req)),
{
    let mut out: Vec<u8> = Vec::with_capacity(64);
    frame_header(&mut out, request_type(req), correlation_id);
    put_request(&mut out, req);
    proof {
        lemma_draft_frame(request_tag(*req), correlation_id, request_vals(*req));
    }
    finish_frame(out)
}

/// What reading the body of one request type from `before` gives.
pub open spec fn reads_body(tag: u8, before: Seq<u8>, after: Seq<u8>, r: Result<Request>) -> bool {
    match parse(request_shape(tag)->0, before) {
        Ok((vs, rest)) => r is Ok && request_tag(r->Ok_0) == tag && request_vals(r->Ok_0) == vs && after
            == rest,
        Err(e) => r is Err && r->Err_0@ == e,
    }
}

fn read_create_topic(r: &mut Reader<'_>) -> (res: Result<Request>)
    ensures
        reads_body(MSG_CREATE_TOPIC, old(r)@, final(r)@, res),
{
    proof {
        reveal_with_fuel(parse, 9);
    }
    let topic: String = r.string()?;
    let partitions: u32 = r.u32()?;
    let replication_factor: u32 = r.u32()?;
    Ok(Request::CreateTopic { topic, partitions, replication_factor })
}

fn read_produce(r: &mut Reader<'_>) -> (res: Result<Request>)
    ensures
        reads_body(MSG_PRODUCE, old(r)@, final(r)@, res),
{
    proof {
        reveal_with_fuel(parse, 9);
    }
    let topic: String = r.string()?;
    let partition: u32 = r.u32()?;
    let acks: Acks = Acks::read(r)?;
    let leader_epoch: u64 = r.u64()?;
    let records: Vec<ProduceRecord> = read_produced_list(r)?;
    Ok(Request::Produce { topic, partition, acks, leader_epoch, records })
}

fn read_fetch(r: &mut Reader<'_>) -> (res: Result<Request>)
    ensures
        reads_body(MSG_FETCH, old(r)@, final(r)@, res),
{
    proof {
        reveal_with_fuel(parse, 9);
    }
    let topic: String = r.string()?;
    let partition: u32 = r.u32()?;
    let offset: u64 = r.u64()?;
    let max_bytes: u32 = r.u32()?;
    let max_wait_ms: u32 = r.u32()?;
    Ok(Request::Fetch { topic, partition, offset, max_bytes, max_wait_ms })
}

fn read_commit_offset(r: &mut Reader<'_>) -> (res: Result<Request>)
    ensures
        reads_body(MSG_COMMIT_OFFSET, old(r)@, final(r)@, res),
{
    proof {
        reveal_with_fuel(parse, 9);
    }
    let group: String = r.string()?;
    let topic: String = r.string()?;
    let partition: u32 = r.u32()?;
    let offset: u64 = r.u64()?;
    let member_id: String = r.string()?;
    let generation: u64 = r.u64()?;
    Ok(Request::CommitOffset { group, topic, partition, offset, member_id, generation })
}

fn read_fetch_offset(r: &mut Reader<'_>) -> (res: Result<Request>)
    ensures
        reads_body(MSG_FETCH_OFFSET, old(r)@, final(r)@, res),
{
    proof {
        reveal_with_fuel(parse, 9);
    }
    let group: String = r.string()?;
    let topic: String = r.string()?;
    let partition: u32 = r.u32()?;
    Ok(Request::FetchOffset { group, topic, partition })
}

fn read_join_group(r: &mut Reader<'_>) -> (res: Result<Request>)
    ensures
        reads_body(MSG_JOIN_GROUP, old(r)@, final(r)@, res),
{
    proof {
        reveal_with_fuel(parse, 9);
    }
    let group: String = r.string()?;
    let member_id: String = r.string()?;
    let session_timeout_ms: u32 = r.u32()?;
    let topics: Vec<String> = read_name_list(r)?;
    Ok(Request::JoinGroup { group, member_id, session_timeout_ms, topics })
}

fn read_heartbeat(r: &mut Reader<'_>) -> (res: Result<Request>)
    ensures
        reads_body(MSG_HEARTBEAT, old(r)@, final(r)@, res),
{
    proof {
        reveal_with_fuel(parse, 9);
    }
    let group: String = r.string()?;
    let member_id: String = r.string()?;
    let generation: u64 = r.u64()?;
    Ok(Request::Heartbeat { group, member_id, generation })
}

fn read_leave_group(r: &mut Reader<'_>) -> (res: Result<Request>)
    ensures
        reads_body(MSG_LEAVE_GROUP, old(r)@, final(r)@, res),
{
    proof {
        reveal_with_fuel(parse, 9);
    }
    let group: String = r.string()?;
    let member_id: String = r.string()?;
    Ok(Request::LeaveGroup { group, member_id })
}

fn read_replica_fetch(r: &mut Reader<'_>) -> (res: Result<Request>)
    ensures
        reads_body(MSG_REPLICA_FETCH, old(r)@, final(r)@, res),
{
    proof {
        reveal_with_fuel(parse, 9);
    }
    let topic: String = r.string()?;
    let partition: u32 = r.u32()?;
    let follower_id: u32 = r.u32()?;
    let leader_epoch: u64 = r.u64()?;
    let offset: u64 = r.u64()?;
    let max_bytes: u32 = r.u32()?;
    let max_wait_ms: u32 = r.u32()?;
    Ok(
        Request::ReplicaFetch {
            topic,
            partition,
            follower_id,
            leader_epoch,
            offset,
            max_bytes,
            max_wait_ms,
        },
    )
}

fn read_epoch_check(r: &mut Reader<'_>) -> (res: Result<Request>)
    ensures
        reads_body(MSG_EPOCH_CHECK, old(r)@, final(r)@, res),
{
    proof {
        reveal_with_fuel(parse, 9);
    }
    let topic: String = r.string()?;
    let partition: u32 = r.u32()?;
    let epoch: u64 = r.u64()?;
    Ok(Request::EpochCheck { topic, partition, epoch })
}

fn read_register_broker(r: &mut Reader<'_>) -> (res: Result<Request>)
    ensures
        reads_body(MSG_REGISTER_BROKER, old(r)@, final(r)@, res),
{
    proof {
        reveal_with_fuel(parse, 9);
    }
    let broker_id: u32 = r.u32()?;
    let addr: String = r.string()?;
    let peer_addr: String = r.string()?;
    Ok(Request::RegisterBroker { broker_id, addr, peer_addr })
}

fn read_broker_heartbeat(r: &mut Reader<'_>) -> (res: Result<Request>)
    ensures
        reads_body(MSG_BROKER_HEARTBEAT, old(r)@, final(r)@, res),
{
    proof {
        reveal_with_fuel(parse, 9);
    }
    let broker_id: u32 = r.u32()?;
    let metadata_version: u64 = r.u64()?;
    Ok(Request::BrokerHeartbeat { broker_id, metadata_version })
}

fn read_alter_isr(r: &mut Reader<'_>) -> (res: Result<Request>)
    ensures
        reads_body(MSG_ALTER_ISR, old(r)@, final(r)@, res),
{
    proof {
        reveal_with_fuel(parse, 9);
    }
    let topic: String = r.string()?;
    let partition: u32 = r.u32()?;
    let leader_epoch: u64 = r.u64()?;
    let isr: Vec<u32> = read_id_list(r)?;
    Ok(Request::AlterIsr { topic, partition, leader_epoch, isr })
}

/// Decodes a request frame (the bytes after the length field).
pub fn decode_request(frame: &[u8]) -> (r: Result<(u32, Request)>)
    ensures
        match parse_message(frame@, |tag: u8| request_shape(tag)) {
            Ok((corr, tag, vs)) => r is Ok && r->Ok_0.0 == corr && request_tag(r->Ok_0.1) == tag
                && request_vals(r->Ok_0.1) == vs,
            Err(e) => r is Err && r->Err_0@ == e,
        },
{
    let mut r: Reader<'_> = Reader::new(frame);
    let (msg_type, corr): (u8, u32) = read_header(&mut r)?;
    proof {
        reveal_with_fuel(parse, 2);
    }
    let req: Request = if msg_type == MSG_CREATE_TOPIC {
        read_create_topic(&mut r)?
    } else if msg_type == MSG_METADATA {
        Request::Metadata
    } else if msg_type == MSG_PRODUCE {
        read_produce(&mut r)?
    } else if msg_type == MSG_FETCH {
        read_fetch(&mut r)?
    } else if msg_type == MSG_COMMIT_OFFSET {
        read_commit_offset(&mut r)?
    } else if msg_type == MSG_FETCH_OFFSET {
        read_fetch_offset(&mut r)?
    } else if msg_type == MSG_JOIN_GROUP {
        read_join_group(&mut r)?
    } else if msg_type == MSG_HEARTBEAT {
        read_heartbeat(&mut r)?
    } else if msg_type == MSG_LEAVE_GROUP {
        read_leave_group(&mut r)?
    } else if msg_type == MSG_REPLICA_FETCH {
        read_replica_fetch(&mut r)?
    } else if msg_type == MSG_EPOCH_CHECK {
        read_epoch_check(&mut r)?
    } else if msg_type == MSG_REGISTER_BROKER {
        read_register_broker(&mut r)?
    } else if msg_type == MSG_BROKER_HEARTBEAT {
        read_broker_heartbeat(&mut r)?
    } else if msg_type == MSG_ALTER_ISR {
        read_alter_isr(&mut r)?
    } else if msg_type == MSG_CONTROLLER_METADATA {
        Request::ControllerMetadata
    } else {
        return Err(ProtoError::UnknownMsgType(msg_type));
    };
    r.expect_end()?;
    Ok((corr, req))
}

/// The values of a request have the shape that its type has.
pub proof fn lemma_request_shaped(x: Request)
    ensures
        request_shape(request_tag(x)) is Some,
        shaped(request_vals(x), request_shape(request_tag(x))->0),
{
    reveal_with_fuel(shaped, 9);
    match x {
        Request::Produce { records, .. } => lemma_produced_shaped(records@),
        Request::AlterIsr { isr, .. } => lemma_id_shaped(isr@),
        Request::JoinGroup { topics, .. } => lemma_name_shaped(topics@),
        _ => {},
    }
}

/// Decoding the frame of a request gives the request and its correlation id, where
/// its lengths fit their fields.
pub proof fn law_request_roundtrip(x: Request, correlation_id: u32)
    requires
        fits(request_vals(x)),
    ensures
        parse_message(
            frame(request_tag(x), correlation_id, request_vals(x)).skip(4),
            |tag: u8| request_shape(tag),
        ) == Ok::<(u32, u8, Vals), Fault>((correlation_id, request_tag(x), request_vals(x))),
{
    lemma_request_shaped(x);
    law_message_roundtrip(
        request_tag(x),
        correlation_id,
        request_vals(x),
        |tag: u8| request_shape(tag),
    );
}

/// A request frame that is cut short does not decode: it is truncated.
pub proof fn law_request_truncated(x: Request, correlation_id: u32, cut: int)
    requires
        fits(request_vals(x)),
        0 <= cut < message(request_tag(x), correlation_id, request_vals(x)).len(),
    ensures
        parse_message(
            frame(request_tag(x), correlation_id, request_vals(x)).skip(4).take(cut),
            |tag: u8| request_shape(tag),
        ) == Err::<(u32, u8, Vals), Fault>(Fault::Truncated),
{
    lemma_request_shaped(x);
    law_message_truncated(
        request_tag(x),
        correlation_id,
        request_vals(x),
        |tag: u8| request_shape(tag),
        cut,
    );
}

/// A request frame with bytes behind it does not decode.
pub proof fn law_request_trailing(x: Request, correlation_id: u32, extra: Seq<u8>)
    requires
        fits(request_vals(x)),
        extra.len() > 0,
    ensures
        parse_message(
            frame(request_tag(x), correlation_id, request_vals(x)).skip(4) + extra,
            |tag: u8| request_shape(tag),
        ) == Err::<(u32, u8, Vals), Fault>(Fault::Malformed(trailing_bytes(extra.len()))),
{
    lemma_request_shaped(x);
    law_message_trailing(
        request_tag(x),
        correlation_id,
        request_vals(x),
        |tag: u8| request_shape(tag),
        extra,
    );
}

} // verus!
