//! Responses and their frames.

use super::lists::{
    behind, lemma_encode_next, lemma_next_row, lemma_rows_ends, lemma_slot_shaped, put_slot_list,
    read_slot_list, slot_list, slot_row,
};
use super::meta::{
    cluster_row, cluster_vals, lemma_cluster_shaped, put_cluster_meta, read_cluster_meta,
    ClusterMeta,
};
use super::request::{
    MSG_ALTER_ISR, MSG_BROKER_HEARTBEAT, MSG_COMMIT_OFFSET, MSG_CONTROLLER_METADATA,
    MSG_CREATE_TOPIC, MSG_EPOCH_CHECK, MSG_FETCH, MSG_FETCH_OFFSET, MSG_HEARTBEAT, MSG_JOIN_GROUP,
    MSG_LEAVE_GROUP, MSG_METADATA, MSG_PRODUCE, MSG_REGISTER_BROKER, MSG_REPLICA_FETCH,
};
use super::schema::{
    append, encode_one, encode_rows, fits, lemma_append, parse, parse_rows, parse_uint, shaped,
    shaped_one, texts_fit, trailing_bytes, Fault, Shape, Shapes, Val, Vals,
};
use super::wire::{put_bytes, put_i64, put_key, put_str, put_u16, put_u32, put_u64, reads, Reader};
use super::{
    field, finish_frame, frame, frame_header, law_message_roundtrip, law_message_trailing,
    law_message_truncated, lemma_draft_frame, message, opt_view, parse_message, read_header,
    reads_row, value, ErrorCode, ProtoError, Result, RESPONSE_BIT,
};
use crate::codec::put_le;
use vstd::prelude::*;

verus! {

pub const RESP_CREATE_TOPIC: u8 = MSG_CREATE_TOPIC + RESPONSE_BIT;

pub const RESP_METADATA: u8 = MSG_METADATA + RESPONSE_BIT;

pub const RESP_PRODUCE: u8 = MSG_PRODUCE + RESPONSE_BIT;

pub const RESP_FETCH: u8 = MSG_FETCH + RESPONSE_BIT;

pub const RESP_COMMIT_OFFSET: u8 = MSG_COMMIT_OFFSET + RESPONSE_BIT;

pub const RESP_FETCH_OFFSET: u8 = MSG_FETCH_OFFSET + RESPONSE_BIT;

pub const RESP_JOIN_GROUP: u8 = MSG_JOIN_GROUP + RESPONSE_BIT;

pub const RESP_HEARTBEAT: u8 = MSG_HEARTBEAT + RESPONSE_BIT;

pub const RESP_LEAVE_GROUP: u8 = MSG_LEAVE_GROUP + RESPONSE_BIT;

pub const RESP_REPLICA_FETCH: u8 = MSG_REPLICA_FETCH + RESPONSE_BIT;

pub const RESP_EPOCH_CHECK: u8 = MSG_EPOCH_CHECK + RESPONSE_BIT;

pub const RESP_REGISTER_BROKER: u8 = MSG_REGISTER_BROKER + RESPONSE_BIT;

pub const RESP_BROKER_HEARTBEAT: u8 = MSG_BROKER_HEARTBEAT + RESPONSE_BIT;

pub const RESP_ALTER_ISR: u8 = MSG_ALTER_ISR + RESPONSE_BIT;

pub const RESP_CONTROLLER_METADATA: u8 = MSG_CONTROLLER_METADATA + RESPONSE_BIT;

#[derive(Debug, Clone, PartialEq, Eq)]
pub struct FetchedRecord {
    pub offset: u64,
    pub timestamp_ms: i64,
    pub key: Option<Vec<u8>>,
    pub value: Vec<u8>,
}

#[derive(Debug, Clone, PartialEq, Eq)]
pub enum Response {
    CreateTopic {
        error: ErrorCode,
    },
    Metadata {
        error: ErrorCode,
        cluster: ClusterMeta,
    },
    Produce {
        error: ErrorCode,
        base_offset: u64,
        count: u32,
    },
    Fetch {
        error: ErrorCode,
        log_start: u64,
        /// Consumers may read up to here (exclusive). With replication this
        /// is the high-water mark, not the log end.
        next_offset: u64,
        records: Vec<FetchedRecord>,
    },
    CommitOffset {
        error: ErrorCode,
    },
    FetchOffset {
        error: ErrorCode,
        /// Committed offset, or -1 if the group has never committed.
        offset: i64,
    },
    JoinGroup {
        error: ErrorCode,
        member_id: String,
        generation: u64,
        assignment: Vec<(String, u32)>,
    },
    Heartbeat {
        error: ErrorCode,
    },
    LeaveGroup {
        error: ErrorCode,
    },
    ReplicaFetch {
        error: ErrorCode,
        leader_epoch: u64,
        log_end: u64,
        high_watermark: u64,
        records: Vec<FetchedRecord>,
    },
    EpochCheck {
        error: ErrorCode,
        end_offset: u64,
    },
    RegisterBroker {
        error: ErrorCode,
        metadata_version: u64,
    },
    BrokerHeartbeat {
        error: ErrorCode,
        metadata_version: u64,
    },
    AlterIsr {
        error: ErrorCode,
        metadata_version: u64,
    },
    ControllerMetadata {
        error: ErrorCode,
        cluster: ClusterMeta,
    },
}

pub open spec fn fetched_row() -> Shapes {
    field(Shape::U64, field(Shape::I64, field(Shape::OptBytes, field(Shape::Bytes, Shapes::End))))
}

pub open spec fn fetched_vals(x: FetchedRecord) -> Vals {
    value(
        Val::U64(x.offset),
        value(
            Val::I64(x.timestamp_ms),
            value(Val::OptBytes(opt_view(x.key)), value(Val::Bytes(x.value@), Vals::End)),
        ),
    )
}

/// A list of fetched records.
pub open spec fn fetched_list(v: Seq<FetchedRecord>) -> Val {
    Val::List(v.map_values(|x: FetchedRecord| fetched_vals(x)))
}

pub proof fn lemma_fetched_shaped(v: Seq<FetchedRecord>)
    ensures
        shaped_one(fetched_list(v), Shape::List(Box::new(fetched_row()))),
{
    let rows = fetched_list(v)->List_0;
    assert forall|i: int| 0 <= i < rows.len() implies shaped(#[trigger] rows[i], fetched_row()) by {
        reveal_with_fuel(shaped, 5);
    }
}

fn put_fetched(out: &mut Vec<u8>, x: &FetchedRecord)
    ensures
        final(out)@ == append(old(out)@, fetched_vals(*x)),
{
    put_u64(out, x.offset);
    put_i64(out, x.timestamp_ms);
    put_key(out, &x.key);
    put_bytes(out, x.value.as_slice());
    proof {
        reveal_with_fuel(append, 5);
    }
}

pub fn put_fetched_list(out: &mut Vec<u8>, list: &Vec<FetchedRecord>)
    ensures
        final(out)@ == old(out)@ + encode_one(fetched_list(list@)),
{
    let ghost start = out@;
    let ghost rows = fetched_list(list@)->List_0;
    put_le(out, list.len() as u64, 4);
    let ghost head = out@;
    let mut i: usize = 0;
    assert(out@ =~= head + encode_rows(rows.take(0)));
    while i < list.len()
        invariant
            i <= list@.len(),
            fetched_list(list@) == Val::List(rows),
            out@ == head + encode_rows(rows.take(i as int)),
        decreases list@.len() - i,
    {
        let ghost before = out@;
        put_fetched(out, &list[i]);
        proof {
            lemma_encode_next(rows, i as int);
            lemma_append(before, fetched_vals(list@[i as int]));
            assert(out@ =~= head + encode_rows(rows.take(i + 1)));
        }
        i = i + 1;
    }
    assert(rows.take(i as int) =~= rows);
    assert(out@ =~= start + encode_one(fetched_list(list@)));
}

fn read_fetched(r: &mut Reader<'_>) -> (res: Result<FetchedRecord>)
    ensures
        reads_row(fetched_row(), old(r)@, final(r)@, res, |x: FetchedRecord| fetched_vals(x)),
{
    proof {
        reveal_with_fuel(parse, 5);
    }
    let offset: u64 = r.u64()?;
    let timestamp_ms: i64 = r.i64()?;
    let key: Option<Vec<u8>> = r.opt_bytes()?;
    let value: Vec<u8> = r.bytes()?;
    Ok(FetchedRecord { offset, timestamp_ms, key, value })
}

pub fn read_fetched_list(r: &mut Reader<'_>) -> (res: Result<Vec<FetchedRecord>>)
    ensures
        reads(
            Shape::List(Box::new(fetched_row())),
            old(r)@,
            final(r)@,
            res,
            |x: Vec<FetchedRecord>| fetched_list(x@),
        ),
{
    let count: u32 = r.u32()?;
    let ghost body = r@;
    let mut list: Vec<FetchedRecord> = Vec::new();
    let mut i: u32 = 0;
    let ghost mut done: Seq<Vals> = Seq::empty();
    proof {
        lemma_rows_ends(fetched_row(), count as nat, body, done, body);
        assert(done =~= list@.map_values(|x: FetchedRecord| fetched_vals(x)));
    }
    while i < count
        invariant
            i <= count,
            done == list@.map_values(|x: FetchedRecord| fetched_vals(x)),
            parse_uint(old(r)@, 4) == Ok::<(nat, Seq<u8>), Fault>((count as nat, body)),
            parse_rows(fetched_row(), count as nat, body) == behind(
                done,
                parse_rows(fetched_row(), (count - i) as nat, r@),
            ),
        decreases count - i,
    {
        proof {
            lemma_next_row(done, fetched_row(), (count - i) as nat, r@);
        }
        let x: FetchedRecord = read_fetched(r)?;
        proof {
            done = done.push(fetched_vals(x));
        }
        list.push(x);
        assert(done =~= list@.map_values(|x: FetchedRecord| fetched_vals(x)));
        i = i + 1;
    }
    proof {
        lemma_rows_ends(fetched_row(), 0, body, done, r@);
    }
    Ok(list)
}

fn put_cluster_body(out: &mut Vec<u8>, error: ErrorCode, cluster: &ClusterMeta)
    requires
        texts_fit(value(Val::Error(error.number()), cluster_vals(*cluster))),
    ensures
        final(out)@ == append(
            old(out)@,
            value(Val::Error(error.number()), cluster_vals(*cluster)),
        ),
{
    proof {
        reveal_with_fuel(append, 2);
        reveal_with_fuel(texts_fit, 2);
    }
    put_u16(out, error.to_u16());
    put_cluster_meta(out, cluster);
}

/// The number that stands for the type of a response on the wire.
pub open spec fn response_tag(x: Response) -> u8 {
    match x {
        Response::CreateTopic { .. } => RESP_CREATE_TOPIC,
        Response::Metadata { .. } => RESP_METADATA,
        Response::Produce { .. } => RESP_PRODUCE,
        Response::Fetch { .. } => RESP_FETCH,
        Response::CommitOffset { .. } => RESP_COMMIT_OFFSET,
        Response::FetchOffset { .. } => RESP_FETCH_OFFSET,
        Response::JoinGroup { .. } => RESP_JOIN_GROUP,
        Response::Heartbeat { .. } => RESP_HEARTBEAT,
        Response::LeaveGroup { .. } => RESP_LEAVE_GROUP,
        Response::ReplicaFetch { .. } => RESP_REPLICA_FETCH,
        Response::EpochCheck { .. } => RESP_EPOCH_CHECK,
        Response::RegisterBroker { .. } => RESP_REGISTER_BROKER,
        Response::BrokerHeartbeat { .. } => RESP_BROKER_HEARTBEAT,
        Response::AlterIsr { .. } => RESP_ALTER_ISR,
        Response::ControllerMetadata { .. } => RESP_CONTROLLER_METADATA,
    }
}

/// The fields of a response, in wire order.
pub open spec fn response_vals(x: Response) -> Vals {
    match x {
        Response::CreateTopic { error } => value(Val::Error(error.number()), Vals::End),
        Response::Metadata { error, cluster } => value(
            Val::Error(error.number()),
            cluster_vals(cluster),
        ),
        Response::Produce { error, base_offset, count } => value(
            Val::Error(error.number()),
            value(Val::U64(base_offset), value(Val::U32(count), Vals::End)),
        ),
        Response::Fetch { error, log_start, next_offset, records } => value(
            Val::Error(error.number()),
            value(
                Val::U64(log_start),
                value(Val::U64(next_offset), value(fetched_list(records@), Vals::End)),
            ),
        ),
        Response::CommitOffset { error } => value(Val::Error(error.number()), Vals::End),
        Response::FetchOffset { error, offset } => value(
            Val::Error(error.number()),
            value(Val::I64(offset), Vals::End),
        ),
        Response::JoinGroup { error, member_id, generation, assignment } => value(
            Val::Error(error.number()),
            value(
                Val::Str(member_id@),
                value(Val::U64(generation), value(slot_list(assignment@), Vals::End)),
            ),
        ),
        Response::Heartbeat { error } => value(Val::Error(error.number()), Vals::End),
        Response::LeaveGroup { error } => value(Val::Error(error.number()), Vals::End),
        Response::ReplicaFetch {
            error,
            leader_epoch,
            log_end,
            high_watermark,
            records,
        } => value(
            Val::Error(error.number()),
            value(
                Val::U64(leader_epoch),
                value(
                    Val::U64(log_end),
                    value(Val::U64(high_watermark), value(fetched_list(records@), Vals::End)),
                ),
            ),
        ),
        Response::EpochCheck { error, end_offset } => value(
            Val::Error(error.number()),
            value(Val::U64(end_offset), Vals::End),
        ),
        Response::RegisterBroker { error, metadata_version } => value(
            Val::Error(error.number()),
            value(Val::U64(metadata_version), Vals::End),
        ),
        Response::BrokerHeartbeat { error, metadata_version } => value(
            Val::Error(error.number()),
            value(Val::U64(metadata_version), Vals::End),
        ),
        Response::AlterIsr { error, metadata_version } => value(
            Val::Error(error.number()),
            value(Val::U64(metadata_version), Vals::End),
        ),
        Response::ControllerMetadata { error, cluster } => value(
            Val::Error(error.number()),
            cluster_vals(cluster),
        ),
    }
}

/// The fields that a response type has, where there is such a type.
pub open spec fn response_shape(tag: u8) -> Option<Shapes> {
    if tag == RESP_CREATE_TOPIC {
        Some(field(Shape::Error, Shapes::End))
    } else if tag == RESP_METADATA {
        Some(field(Shape::Error, cluster_row()))
    } else if tag == RESP_PRODUCE {
        Some(field(Shape::Error, field(Shape::U64, field(Shape::U32, Shapes::End))))
    } else if tag == RESP_FETCH {
        Some(field(
            Shape::Error,
            field(
                Shape::U64,
                field(Shape::U64, field(Shape::List(Box::new(fetched_row())), Shapes::End)),
            ),
        ))
    } else if tag == RESP_COMMIT_OFFSET {
        Some(field(Shape::Error, Shapes::End))
    } else if tag == RESP_FETCH_OFFSET {
        Some(field(Shape::Error, field(Shape::I64, Shapes::End)))
    } else if tag == RESP_JOIN_GROUP {
        Some(field(
            Shape::Error,
            field(
                Shape::Str,
                field(Shape::U64, field(Shape::List(Box::new(slot_row())), Shapes::End)),
            ),
        ))
    } else if tag == RESP_HEARTBEAT {
        Some(field(Shape::Error, Shapes::End))
    } else if tag == RESP_LEAVE_GROUP {
        Some(field(Shape::Error, Shapes::End))
    } else if tag == RESP_REPLICA_FETCH {
        Some(field(
            Shape::Error,
            field(
                Shape::U64,
                field(
                    Shape::U64,
                    field(Shape::U64, field(Shape::List(Box::new(fetched_row())), Shapes::End)),
                ),
            ),
        ))
    } else if tag == RESP_EPOCH_CHECK {
        Some(field(Shape::Error, field(Shape::U64, Shapes::End)))
    } else if tag == RESP_REGISTER_BROKER {
        Some(field(Shape::Error, field(Shape::U64, Shapes::End)))
    } else if tag == RESP_BROKER_HEARTBEAT {
        Some(field(Shape::Error, field(Shape::U64, Shapes::End)))
    } else if tag == RESP_ALTER_ISR {
        Some(field(Shape::Error, field(Shape::U64, Shapes::End)))
    } else if tag == RESP_CONTROLLER_METADATA {
        Some(field(Shape::Error, cluster_row()))
    } else {
        None
    }
}

/// The number that stands for the type of a response on the wire.
fn response_type(resp: &Response) -> (tag: u8)
    ensures
        tag == response_tag(*resp),
{
    match resp {
        Response::CreateTopic { .. } => RESP_CREATE_TOPIC,
        Response::Metadata { .. } => RESP_METADATA,
        Response::Produce { .. } => RESP_PRODUCE,
        Response::Fetch { .. } => RESP_FETCH,
        Response::CommitOffset { .. } => RESP_COMMIT_OFFSET,
        Response::FetchOffset { .. } => RESP_FETCH_OFFSET,
        Response::JoinGroup { .. } => RESP_JOIN_GROUP,
        Response::Heartbeat { .. } => RESP_HEARTBEAT,
        Response::LeaveGroup { .. } => RESP_LEAVE_GROUP,
        Response::ReplicaFetch { .. } => RESP_REPLICA_FETCH,
        Response::EpochCheck { .. } => RESP_EPOCH_CHECK,
        Response::RegisterBroker { .. } => RESP_REGISTER_BROKER,
        Response::BrokerHeartbeat { .. } => RESP_BROKER_HEARTBEAT,
        Response::AlterIsr { .. } => RESP_ALTER_ISR,
        Response::ControllerMetadata { .. } => RESP_CONTROLLER_METADATA,
    }
}

/// Appends the fields of a response.
#[verifier::rlimit(30)]
fn put_response(out: &mut Vec<u8>, resp: &Response)
    requires
        texts_fit(response_vals(*resp)),
    ensures
        final(out)@ == append(old(out)@, response_vals(*resp)),
{
    match resp {
        Response::CreateTopic { error } => {
            proof {
                reveal_with_fuel(append, 2);
            }
            put_u16(out, error.to_u16());
        },
        Response::Metadata { error, cluster } => {
            put_cluster_body(out, *error, cluster);
        },
        Response::Produce { error, base_offset, count } => {
            proof {
                reveal_with_fuel(append, 4);
            }
            put_u16(out, error.to_u16());
            put_u64(out, *base_offset);
            put_u32(out, *count);
        },
        Response::Fetch { error, log_start, next_offset, records } => {
            proof {
                reveal_with_fuel(append, 5);
            }
            put_u16(out, error.to_u16());
            put_u64(out, *log_start);
            put_u64(out, *next_offset);
            put_fetched_list(out, records);
        },
        Response::CommitOffset { error } => {
            proof {
                reveal_with_fuel(append, 2);
            }
            put_u16(out, error.to_u16());
        },
        Response::FetchOffset { error, offset } => {
            proof {
                reveal_with_fuel(append, 3);
            }
            put_u16(out, error.to_u16());
            put_i64(out, *offset);
        },
        Response::JoinGroup { error, member_id, generation, assignment } => {
            proof {
                reveal_with_fuel(append, 5);
                reveal_with_fuel(texts_fit, 5);
            }
            put_u16(out, error.to_u16());
            put_str(out, member_id.as_str());
            put_u64(out, *generation);
            put_slot_list(out, assignment);
        },
        Response::Heartbeat { error } => {
            proof {
                reveal_with_fuel(append, 2);
            }
            put_u16(out, error.to_u16());
        },
        Response::LeaveGroup { error } => {
            proof {
                reveal_with_fuel(append, 2);
            }
            put_u16(out, error.to_u16());
        },
        Response::ReplicaFetch { error, leader_epoch, log_end, high_watermark, records } => {
            proof {
                reveal_with_fuel(append, 6);
            }
            put_u16(out, error.to_u16());
            put_u64(out, *leader_epoch);
            put_u64(out, *log_end);
            put_u64(out, *high_watermark);
            put_fetched_list(out, records);
        },
        Response::EpochCheck { error, end_offset } => {
            proof {
                reveal_with_fuel(append, 3);
            }
            put_u16(out, error.to_u16());
            put_u64(out, *end_offset);
        },
        Response::RegisterBroker { error, metadata_version } => {
            proof {
                reveal_with_fuel(append, 3);
            }
            put_u16(out, error.to_u16());
            put_u64(out, *metadata_version);
        },
        Response::BrokerHeartbeat { error, metadata_version } => {
            proof {
                reveal_with_fuel(append, 3);
            }
            put_u16(out, error.to_u16());
            put_u64(out, *metadata_version);
        },
        Response::AlterIsr { error, metadata_version } => {
            proof {
                reveal_with_fuel(append, 3);
            }
            put_u16(out, error.to_u16());
            put_u64(out, *metadata_version);
        },
        Response::ControllerMetadata { error, cluster } => {
            put_cluster_body(out, *error, cluster);
        },
    }
}

/// The frame of a response. Every text in it is at most 65535 bytes long.
pub fn encode_response(resp: &Response, correlation_id: u32) -> (out: Vec<u8>)
    requires
        texts_fit(response_vals(*resp)),
    ensures
        out@ == frame(response_tag(*resp), correlation_id, response_vals(*resp)),
{
    let mut out: Vec<u8> = Vec::with_capacity(64);
    frame_header(&mut out, response_type(resp), correlation_id);
    put_response(&mut out, resp);
    proof {
        lemma_draft_frame(response_tag(*resp), correlation_id, response_vals(*resp));
    }
    finish_frame(out)
}

/// What reading the body of one response type from `before` gives.
pub open spec fn reads_body(tag: u8, before: Seq<u8>, after: Seq<u8>, r: Result<Response>) -> bool {
    match parse(response_shape(tag)->0, before) {
        Ok((vs, rest)) => r is Ok && response_tag(r->Ok_0) == tag && response_vals(r->Ok_0) == vs && after
            == rest,
        Err(e) => r is Err && r->Err_0@ == e,
    }
}

fn read_create_topic(r: &mut Reader<'_>) -> (res: Result<Response>)
    ensures
        reads_body(RESP_CREATE_TOPIC, old(r)@, final(r)@, res),
{
    proof {
        reveal_with_fuel(parse, 9);
    }
    let error: ErrorCode = ErrorCode::read(r)?;
    Ok(Response::CreateTopic { error })
}

fn read_metadata(r: &mut Reader<'_>) -> (res: Result<Response>)
    ensures
        reads_body(RESP_METADATA, old(r)@, final(r)@, res),
{
    proof {
        reveal_with_fuel(parse, 9);
    }
    let error: ErrorCode = ErrorCode::read(r)?;
    let cluster: ClusterMeta = read_cluster_meta(r)?;
    Ok(Response::Metadata { error, cluster })
}

fn read_produce(r: &mut Reader<'_>) -> (res: Result<Response>)
    ensures
        reads_body(RESP_PRODUCE, old(r)@, final(r)@, res),
{
    proof {
        reveal_with_fuel(parse, 9);
    }
    let error: ErrorCode = ErrorCode::read(r)?;
    let base_offset: u64 = r.u64()?;
    let count: u32 = r.u32()?;
    Ok(Response::Produce { error, base_offset, count })
}

fn read_fetch(r: &mut Reader<'_>) -> (res: Result<Response>)
    ensures
        reads_body(RESP_FETCH, old(r)@, final(r)@, res),
{
    proof {
        reveal_with_fuel(parse, 9);
    }
    let error: ErrorCode = ErrorCode::read(r)?;
    let log_start: u64 = r.u64()?;
    let next_offset: u64 = r.u64()?;
    let records: Vec<FetchedRecord> = read_fetched_list(r)?;
    Ok(Response::Fetch { error, log_start, next_offset, records })
}

fn read_commit_offset(r: &mut Reader<'_>) -> (res: Result<Response>)
    ensures
        reads_body(RESP_COMMIT_OFFSET, old(r)@, final(r)@, res),
{
    proof {
        reveal_with_fuel(parse, 9);
    }
    let error: ErrorCode = ErrorCode::read(r)?;
    Ok(Response::CommitOffset { error })
}

fn read_fetch_offset(r: &mut Reader<'_>) -> (res: Result<Response>)
    ensures
        reads_body(RESP_FETCH_OFFSET, old(r)@, final(r)@, res),
{
    proof {
        reveal_with_fuel(parse, 9);
    }
    let error: ErrorCode = ErrorCode::read(r)?;
    let offset: i64 = r.i64()?;
    Ok(Response::FetchOffset { error, offset })
}

fn read_join_group(r: &mut Reader<'_>) -> (res: Result<Response>)
    ensures
        reads_body(RESP_JOIN_GROUP, old(r)@, final(r)@, res),
{
    proof {
        reveal_with_fuel(parse, 9);
    }
    let error: ErrorCode = ErrorCode::read(r)?;
    let member_id: String = r.string()?;
    let generation: u64 = r.u64()?;
    let assignment: Vec<(String, u32)> = read_slot_list(r)?;
    Ok(Response::JoinGroup { error, member_id, generation, assignment })
}

fn read_heartbeat(r: &mut Reader<'_>) -> (res: Result<Response>)
    ensures
        reads_body(RESP_HEARTBEAT, old(r)@, final(r)@, res),
{
    proof {
        reveal_with_fuel(parse, 9);
    }
    let error: ErrorCode = ErrorCode::read(r)?;
    Ok(Response::Heartbeat { error })
}

fn read_leave_group(r: &mut Reader<'_>) -> (res: Result<Response>)
    ensures
        reads_body(RESP_LEAVE_GROUP, old(r)@, final(r)@, res),
{
    proof {
        reveal_with_fuel(parse, 9);
    }
    let error: ErrorCode = ErrorCode::read(r)?;
    Ok(Response::LeaveGroup { error })
}

fn read_replica_fetch(r: &mut Reader<'_>) -> (res: Result<Response>)
    ensures
        reads_body(RESP_REPLICA_FETCH, old(r)@, final(r)@, res),
{
    proof {
        reveal_with_fuel(parse, 9);
    }
    let error: ErrorCode = ErrorCode::read(r)?;
    let leader_epoch: u64 = r.u64()?;
    let log_end: u64 = r.u64()?;
    let high_watermark: u64 = r.u64()?;
    let records: Vec<FetchedRecord> = read_fetched_list(r)?;
    Ok(Response::ReplicaFetch { error, leader_epoch, log_end, high_watermark, records })
}

fn read_epoch_check(r: &mut Reader<'_>) -> (res: Result<Response>)
    ensures
        reads_body(RESP_EPOCH_CHECK, old(r)@, final(r)@, res),
{
    proof {
        reveal_with_fuel(parse, 9);
    }
    let error: ErrorCode = ErrorCode::read(r)?;
    let end_offset: u64 = r.u64()?;
    Ok(Response::EpochCheck { error, end_offset })
}

fn read_register_broker(r: &mut Reader<'_>) -> (res: Result<Response>)
    ensures
        reads_body(RESP_REGISTER_BROKER, old(r)@, final(r)@, res),
{
    proof {
        reveal_with_fuel(parse, 9);
    }
    let error: ErrorCode = ErrorCode::read(r)?;
    let metadata_version: u64 = r.u64()?;
    Ok(Response::RegisterBroker { error, metadata_version })
}

fn read_broker_heartbeat(r: &mut Reader<'_>) -> (res: Result<Response>)
    ensures
        reads_body(RESP_BROKER_HEARTBEAT, old(r)@, final(r)@, res),
{
    proof {
        reveal_with_fuel(parse, 9);
    }
    let error: ErrorCode = ErrorCode::read(r)?;
    let metadata_version: u64 = r.u64()?;
    Ok(Response::BrokerHeartbeat { error, metadata_version })
}

fn read_alter_isr(r: &mut Reader<'_>) -> (res: Result<Response>)
    ensures
        reads_body(RESP_ALTER_ISR, old(r)@, final(r)@, res),
{
    proof {
        reveal_with_fuel(parse, 9);
    }
    let error: ErrorCode = ErrorCode::read(r)?;
    let metadata_version: u64 = r.u64()?;
    Ok(Response::AlterIsr { error, metadata_version })
}

fn read_controller_metadata(r: &mut Reader<'_>) -> (res: Result<Response>)
    ensures
        reads_body(RESP_CONTROLLER_METADATA, old(r)@, final(r)@, res),
{
    proof {
        reveal_with_fuel(parse, 9);
    }
    let error: ErrorCode = ErrorCode::read(r)?;
    let cluster: ClusterMeta = read_cluster_meta(r)?;
    Ok(Response::ControllerMetadata { error, cluster })
}

/// Decodes a response frame (the bytes after the length field).
pub fn decode_response(frame: &[u8]) -> (r: Result<(u32, Response)>)
    ensures
        match parse_message(frame@, |tag: u8| response_shape(tag)) {
            Ok((corr, tag, vs)) => r is Ok && r->Ok_0.0 == corr && response_tag(r->Ok_0.1) == tag
                && response_vals(r->Ok_0.1) == vs,
            Err(e) => r is Err && r->Err_0@ == e,
        },
{
    let mut r: Reader<'_> = Reader::new(frame);
    let (msg_type, corr): (u8, u32) = read_header(&mut r)?;
    proof {
        reveal_with_fuel(parse, 2);
    }
    let resp: Response = if msg_type == RESP_CREATE_TOPIC {
        read_create_topic(&mut r)?
    } else if msg_type == RESP_METADATA {
        read_metadata(&mut r)?
    } else if msg_type == RESP_PRODUCE {
        read_produce(&mut r)?
    } else if msg_type == RESP_FETCH {
        read_fetch(&mut r)?
    } else if msg_type == RESP_COMMIT_OFFSET {
        read_commit_offset(&mut r)?
    } else if msg_type == RESP_FETCH_OFFSET {
        read_fetch_offset(&mut r)?
    } else if msg_type == RESP_JOIN_GROUP {
        read_join_group(&mut r)?
    } else if msg_type == RESP_HEARTBEAT {
        read_heartbeat(&mut r)?
    } else if msg_type == RESP_LEAVE_GROUP {
        read_leave_group(&mut r)?
    } else if msg_type == RESP_REPLICA_FETCH {
        read_replica_fetch(&mut r)?
    } else if msg_type == RESP_EPOCH_CHECK {
        read_epoch_check(&mut r)?
    } else if msg_type == RESP_REGISTER_BROKER {
        read_register_broker(&mut r)?
    } else if msg_type == RESP_BROKER_HEARTBEAT {
        read_broker_heartbeat(&mut r)?
    } else if msg_type == RESP_ALTER_ISR {
        read_alter_isr(&mut r)?
    } else if msg_type == RESP_CONTROLLER_METADATA {
        read_controller_metadata(&mut r)?
    } else {
        return Err(ProtoError::UnknownMsgType(msg_type));
    };
    r.expect_end()?;
    Ok((corr, resp))
}

/// The values of a response have the shape that its type has.
pub proof fn lemma_response_shaped(x: Response)
    ensures
        response_shape(response_tag(x)) is Some,
        shaped(response_vals(x), response_shape(response_tag(x))->0),
{
    reveal_with_fuel(shaped, 9);
    match x {
        Response::Metadata { cluster, .. } => lemma_cluster_shaped(cluster),
        Response::ControllerMetadata { cluster, .. } => lemma_cluster_shaped(cluster),
        Response::Fetch { records, .. } => lemma_fetched_shaped(records@),
        Response::ReplicaFetch { records, .. } => lemma_fetched_shaped(records@),
        Response::JoinGroup { assignment, .. } => lemma_slot_shaped(assignment@),
        _ => {},
    }
}

/// Decoding the frame of a response gives the response and its correlation id, where
/// its lengths fit their fields.
pub proof fn law_response_roundtrip(x: Response, correlation_id: u32)
    requires
        fits(response_vals(x)),
    ensures
        parse_message(
            frame(response_tag(x), correlation_id, response_vals(x)).skip(4),
            |tag: u8| response_shape(tag),
        ) == Ok::<(u32, u8, Vals), Fault>((correlation_id, response_tag(x), response_vals(x))),
{
    lemma_response_shaped(x);
    law_message_roundtrip(
        response_tag(x),
        correlation_id,
        response_vals(x),
        |tag: u8| response_shape(tag),
    );
}

/// A response frame that is cut short does not decode: it is truncated.
pub proof fn law_response_truncated(x: Response, correlation_id: u32, cut: int)
    requires
        fits(response_vals(x)),
        0 <= cut < message(response_tag(x), correlation_id, response_vals(x)).len(),
    ensures
        parse_message(
            frame(response_tag(x), correlation_id, response_vals(x)).skip(4).take(cut),
            |tag: u8| response_shape(tag),
        ) == Err::<(u32, u8, Vals), Fault>(Fault::Truncated),
{
    lemma_response_shaped(x);
    law_message_truncated(
        response_tag(x),
        correlation_id,
        response_vals(x),
        |tag: u8| response_shape(tag),
        cut,
    );
}

/// A response frame with bytes behind it does not decode.
pub proof fn law_response_trailing(x: Response, correlation_id: u32, extra: Seq<u8>)
    requires
        fits(response_vals(x)),
        extra.len() > 0,
    ensures
        parse_message(
            frame(response_tag(x), correlation_id, response_vals(x)).skip(4) + extra,
            |tag: u8| response_shape(tag),
        ) == Err::<(u32, u8, Vals), Fault>(Fault::Malformed(trailing_bytes(extra.len()))),
{
    lemma_response_shaped(x);
    law_message_trailing(
        response_tag(x),
        correlation_id,
        response_vals(x),
        |tag: u8| response_shape(tag),
        extra,
    );
}

} // verus!
