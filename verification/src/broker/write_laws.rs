//! What a partition's writer does with batches, acks and time.

use super::cluster::{advanced, fetched_views, Pending, ReplView, RoleAction};
use super::dispatch::has_room_for;
use super::fetch::{below, read_answered};
use super::groups::group_or_new;
use super::leader_laws::lemma_sorted_out;
use super::offsets::record_views;
use super::partition::{
    as_record, batch, batch_size, dirty_from, flush_due, follow, has_room, immediate, is_dirty,
    queued_with, storage_code, wait_of, Batch, ReadOk, Reply, WriterView, IDLE_WAIT_MS,
};
use super::runtime::{newly_covered, starts, with_state, Start};
use super::{with_topic, BrokerView};
use crate::client::cluster::addr_of;
use crate::client::laws::lemma_addr_of;
use crate::order::lemma_push_has;
use crate::proto::{
    opt_view, Acks, ClusterMeta, ErrorCode, PartitionMeta, ProduceRecord, Request, Response,
};
use crate::storage::StorageFault;
use crate::storage::log::{appended, next_of, LogView, MAX_OFFSET};
use crate::storage::policy_laws::law_rolls;
use crate::storage::record::{encoded_size, RecordView};
use vstd::prelude::*;

verus! {

/// How much a record takes on disk: its key, its value and 32 bytes.
pub open spec fn stored_size(r: ProduceRecord) -> int {
    32 + r.value@.len() + match r.key {
        Some(k) => k@.len() as int,
        None => 0,
    }
}

/// A batch takes consecutive offsets from the end of the log, and goes in whole
/// where none of its records is too large; otherwise those before the first
/// that is too large, and the batch is malformed.
pub proof fn law_batch(v: LogView, rs: Seq<ProduceRecord>, timestamp_ms: i64, now_ms: u64)
    requires
        v.segments.len() > 0,
    ensures
        ({
            let b = batch(v, rs, timestamp_ms, now_ms);
            let max = v.config.max_record_bytes;
            &&& b.log.segments.len() > 0
            &&& b.log.config == v.config
            &&& next_of(b.log) == next_of(v) + b.count
            &&& b.count <= rs.len()
            &&& forall|i: int| 0 <= i < b.count ==> stored_size(#[trigger] rs[i]) <= max
            &&& b.error is None ==> b.count == rs.len()
            &&& b.error is Some ==> b.error == Some(ErrorCode::Malformed) && b.count < rs.len()
                && stored_size(rs[b.count as int]) > max
        }),
    decreases rs.len(),
{
    if rs.len() > 0 {
        let head = rs.drop_last();
        law_batch(v, head, timestamp_ms, now_ms);
        let b = batch(v, head, timestamp_ms, now_ms);
        let r = as_record(b.log, rs.last(), timestamp_ms);
        assert(encoded_size(r) == stored_size(rs.last()));
        assert(rs.last() == rs[rs.len() - 1]);
        assert forall|i: int| 0 <= i < b.count implies stored_size(#[trigger] rs[i])
            <= v.config.max_record_bytes by {
            assert(head[i] == rs[i]);
        }
        if b.error is Some {
            assert(head[b.count as int] == rs[b.count as int]);
        } else if encoded_size(r) <= b.log.config.max_record_bytes {
            law_rolls(b.log, r, now_ms);
            assert(appended(b.log, r, now_ms).config == v.config);
        }
    }
}

/// Records from a leader go in whole where they continue the log one by one and
/// none is too large.
pub proof fn law_followed(v: LogView, rs: Seq<RecordView>, now_ms: u64)
    requires
        v.segments.len() > 0,
    ensures
        ({
            let b = follow(v, rs, now_ms);
            &&& b.log.segments.len() > 0
            &&& b.log.config == v.config
            &&& next_of(b.log) == next_of(v) + b.count
            &&& b.count <= rs.len()
            &&& forall|i: int|
                0 <= i < b.count ==> (#[trigger] rs[i]).offset == next_of(v) + i && encoded_size(
                    rs[i],
                ) <= v.config.max_record_bytes
            &&& b.error is None ==> b.count == rs.len()
            &&& b.error is Some ==> b.count < rs.len() && if rs[b.count as int].offset != next_of(
                v,
            ) + b.count {
                b.error == Some(ErrorCode::Storage)
            } else {
                encoded_size(rs[b.count as int]) > v.config.max_record_bytes && b.error == Some(
                    ErrorCode::Malformed,
                )
            }
        }),
    decreases rs.len(),
{
    if rs.len() > 0 {
        let head = rs.drop_last();
        law_followed(v, head, now_ms);
        let b = follow(v, head, now_ms);
        let r = rs.last();
        assert(r == rs[rs.len() - 1]);
        assert forall|i: int| 0 <= i < b.count implies (#[trigger] rs[i]).offset == next_of(v) + i
            && encoded_size(rs[i]) <= v.config.max_record_bytes by {
            assert(head[i] == rs[i]);
        }
        if b.error is Some {
            assert(head[b.count as int] == rs[b.count as int]);
        } else if r.offset == next_of(b.log) && encoded_size(r) <= b.log.config.max_record_bytes {
            law_rolls(b.log, r, now_ms);
            assert(appended(b.log, r, now_ms).config == v.config);
        }
    }
}

/// Whoever asked for an answer gets one, now or later and never twice: at once
/// where the batch failed, was empty, or what it asked for holds already; else
/// it waits in line for the flush. Only a durable produce waits, and not where
/// flushing is left to the system.
pub proof fn law_answered_once(
    ps: Seq<Pending>,
    b: Batch,
    base: u64,
    acks: Acks,
    ticket: u64,
)
    requires
        b.count <= u32::MAX,
        b.count <= next_of(b.log) <= u64::MAX,
    ensures
        ({
            let now = immediate(b, base, acks, Some(ticket));
            let later = queued_with(ps, b, base, acks, Some(ticket));
            let waits = b.error is None && b.count > 0 && acks == Acks::Durable && !(
            b.log.config.fsync is Os) && !(b.log.durable is Some && b.log.durable->0 >= next_of(
                b.log,
            ) - 1);
            &&& waits ==> now.len() == 0 && later == ps.push(
                Pending {
                    last_offset: (next_of(b.log) - 1) as u64,
                    base_offset: base,
                    count: b.count as u32,
                    ticket,
                },
            )
            &&& !waits ==> later == ps && now == seq![
                Reply {
                    ticket,
                    result: match b.error {
                        Some(code) => Err(code),
                        None => Ok(
                            (
                                if b.count == 0 {
                                    next_of(b.log) as u64
                                } else {
                                    base
                                },
                                b.count as u32,
                            ),
                        ),
                    },
                },
            ]
        }),
        immediate(b, base, acks, None).len() == 0,
        queued_with(ps, b, base, acks, None) == ps,
{
}

/// The clock of unflushed records starts with the first of them, runs on with
/// the next, and stops when all are flushed.
pub proof fn law_dirty_clock(v: LogView, since: Option<u64>, now_ms: u64)
    ensures
        !is_dirty(v) ==> dirty_from(v, since, now_ms) is None,
        is_dirty(v) && since is Some ==> dirty_from(v, since, now_ms) == since,
        is_dirty(v) && since is None ==> dirty_from(v, since, now_ms) == Some(now_ms),
{
}

/// Unflushed records are flushed when their time is up, and not before; where
/// there are none, or the policy knows no time, the clock brings no flush.
pub proof fn law_flush_in_time(v: WriterView, now_ms: u64)
    ensures
        flush_due(v, now_ms) <==> v.dirty_since is Some && v.max_ms is Some && (now_ms
            - v.dirty_since->0 >= v.max_ms->0 || v.max_ms->0 == 0),
        wait_of(v, now_ms) >= 1,
        v.dirty_since is Some && v.max_ms is Some && now_ms >= v.dirty_since->0 ==> wait_of(
            v,
            now_ms,
        ) == 1 || now_ms + wait_of(v, now_ms) == v.dirty_since->0 + v.max_ms->0,
{
    assert(IDLE_WAIT_MS >= 1);
}

/// What clients are told of a storage error.
pub proof fn law_storage_codes(e: StorageFault)
    ensures
        match e {
            StorageFault::OffsetOutOfRange(_) => storage_code(e) == ErrorCode::OffsetOutOfRange,
            StorageFault::RecordTooLarge(_) => storage_code(e) == ErrorCode::Malformed,
            StorageFault::Io(_) => storage_code(e) == ErrorCode::Storage,
            StorageFault::Corrupt { .. } => storage_code(e) == ErrorCode::Storage,
            StorageFault::InvalidLayout(_) => storage_code(e) == ErrorCode::Storage,
            StorageFault::InvalidConfig(_) => storage_code(e) == ErrorCode::Storage,
        },
{
}

/// A consumer gets every record that was read and is committed, up to the first
/// that is not.
pub proof fn law_all_committed(rs: Seq<RecordView>, high_watermark: u64, i: int)
    requires
        0 <= i < rs.len(),
        forall|j: int| 0 <= j <= i ==> (#[trigger] rs[j]).offset < high_watermark,
    ensures
        i < below(rs, high_watermark).len(),
        below(rs, high_watermark)[i] == rs[i],
    decreases rs.len(),
{
    assert(rs[0].offset < high_watermark);
    if i > 0 {
        let tail = rs.skip(1);
        assert forall|j: int| 0 <= j <= i - 1 implies (#[trigger] tail[j]).offset
            < high_watermark by {
            assert(tail[j] == rs[j + 1]);
        }
        law_all_committed(tail, high_watermark, i - 1);
    }
}

proof fn lemma_no_addr(bs: Seq<(u32, String)>, id: u32, i: int)
    requires
        0 <= i <= bs.len(),
        forall|j: int| i <= j < bs.len() ==> (#[trigger] bs[j]).0 != id,
    ensures
        addr_of(bs, id, i) is None,
    decreases bs.len() - i,
{
    if i < bs.len() {
        assert(bs[i].0 != id);
        lemma_no_addr(bs, id, i + 1);
    }
}

/// A follower fetches from the leader that the metadata names, at the address
/// for peers, or at the client address where there is none for peers; and in
/// the leader's epoch.
pub proof fn law_follows_leader(
    start: Start,
    generation: u64,
    meta: ClusterMeta,
    p: PartitionMeta,
    k: int,
)
    requires
        p.leader >= 0,
        starts(start, RoleAction::Follow { generation }, meta, p),
    ensures
        0 <= k < meta.peers@.len() && meta.peers@[k].0 == p.leader && (forall|j: int|
            0 <= j < k ==> (#[trigger] meta.peers@[j]).0 != p.leader) ==> (start matches Start::Fetcher {
            generation: g,
            epoch,
            leader_addr,
        } && g == generation && epoch == p.leader_epoch && leader_addr@ == meta.peers@[k].1@),
        0 <= k < meta.brokers@.len() && meta.brokers@[k].0 == p.leader && (forall|j: int|
            0 <= j < k ==> (#[trigger] meta.brokers@[j]).0 != p.leader) && (forall|j: int|
            0 <= j < meta.peers@.len() ==> (#[trigger] meta.peers@[j]).0 != p.leader) ==> (
        start matches Start::Fetcher { generation: g, epoch, leader_addr } && g == generation
            && epoch == p.leader_epoch && leader_addr@ == meta.brokers@[k].1@),
{
    let id = p.leader as u32;
    if 0 <= k < meta.peers@.len() && meta.peers@[k].0 == p.leader && (forall|j: int|
        0 <= j < k ==> (#[trigger] meta.peers@[j]).0 != p.leader) {
        lemma_addr_of(meta.peers@, id, 0, k);
    }
    if 0 <= k < meta.brokers@.len() && meta.brokers@[k].0 == p.leader && (forall|j: int|
        0 <= j < k ==> (#[trigger] meta.brokers@[j]).0 != p.leader) && (forall|j: int|
        0 <= j < meta.peers@.len() ==> (#[trigger] meta.peers@[j]).0 != p.leader) {
        lemma_no_addr(meta.peers@, id, 0);
        lemma_addr_of(meta.brokers@, id, 0, k);
    }
}

/// A topic that is added is there with its partitions, and the others stay.
pub proof fn law_topic_added(ts: Seq<(Seq<char>, u32)>, t: (Seq<char>, u32))
    requires
        forall|i: int| 0 <= i < ts.len() ==> (#[trigger] ts[i]).0 != t.0,
    ensures
        forall|x: (Seq<char>, u32)| #[trigger]
            with_topic(ts, t).contains(x) <==> x == t || ts.contains(x),
    decreases ts.len(),
{
    let out = with_topic(ts, t);
    if ts.len() > 0 {
        let head = ts.drop_last();
        assert(ts =~= head.push(ts.last()));
        assert(ts.last() == ts[ts.len() - 1]);
        assert forall|i: int| 0 <= i < head.len() implies (#[trigger] head[i]).0 != t.0 by {
            assert(head[i] == ts[i]);
        }
        law_topic_added(head, t);
        assert forall|x: (Seq<char>, u32)| #[trigger] out.contains(x) <==> x == t || ts.contains(
            x,
        ) by {
            lemma_push_has(head, ts.last(), x);
            lemma_push_has(ts, t, x);
            lemma_push_has(with_topic(head, t), ts.last(), x);
        }
    } else {
        assert(out =~= ts.push(t));
        assert forall|x: (Seq<char>, u32)| #[trigger] out.contains(x) <==> x == t || ts.contains(
            x,
        ) by {
            lemma_push_has(ts, t, x);
        }
    }
}

/// What one replica's progress changes is that replica alone.
pub proof fn law_replicas_apart(s: BrokerView, i: int, v: ReplView, other: int)
    requires
        0 <= i < s.replicas.len(),
        0 <= other < s.replicas.len(),
        other != i,
    ensures
        ({
            let t = with_state(s, i, v);
            &&& t.replicas.len() == s.replicas.len()
            &&& t.replicas[i].state == v
            &&& t.replicas[i].topic == s.replicas[i].topic
            &&& t.replicas[i].partition == s.replicas[i].partition
            &&& t.replicas[other] == s.replicas[other]
            &&& t == (BrokerView { replicas: t.replicas, ..s })
        }),
{
}

/// What is answered when a leader's log or ISR moves are the parked produces
/// that the new high watermark has passed; one that does not lead answers none.
pub proof fn law_newly_answered(v: ReplView, self_id: u32, log_end: u64, p: Pending)
    ensures
        newly_covered(v, self_id, log_end).contains(p) <==> v.is_leader && v.pending.contains(p)
            && p.last_offset < advanced(v, self_id, log_end).hwm,
{
    if v.is_leader {
        lemma_sorted_out(v.pending, advanced(v, self_id, log_end).hwm, p);
    }
}

/// A fetch is answered with what was read, record for record, and with where
/// the log starts and ends; or with the error.
pub proof fn law_fetch_answered(
    read: std::result::Result<ReadOk, ErrorCode>,
    r: Response,
)
    requires
        read_answered(read, r),
    ensures
        r is Fetch,
        read is Err ==> r->Fetch_error == read->Err_0 && r->Fetch_records@.len() == 0,
        read is Ok ==> {
            let rs = read->Ok_0.records@;
            let sent = r->Fetch_records@;
            &&& r->Fetch_error == ErrorCode::NoError
            &&& r->Fetch_log_start == read->Ok_0.log_start
            &&& r->Fetch_next_offset == read->Ok_0.next_offset
            &&& sent.len() == rs.len()
            &&& forall|i: int|
                0 <= i < rs.len() ==> (#[trigger] sent[i]).offset == rs[i].offset
                    && sent[i].timestamp_ms == rs[i].timestamp_ms && sent[i].value@ == rs[i].value@
                    && opt_view(sent[i].key) == opt_view(rs[i].key)
        },
{
    if let Ok(ok) = read {
        let rs = ok.records@;
        let sent = r->Fetch_records@;
        assert(fetched_views(sent).len() == sent.len());
        assert(record_views(rs).len() == rs.len());
        assert forall|i: int| 0 <= i < rs.len() implies (#[trigger] sent[i]).offset == rs[i].offset
            && sent[i].timestamp_ms == rs[i].timestamp_ms && sent[i].value@ == rs[i].value@
            && opt_view(sent[i].key) == opt_view(rs[i].key) by {
            assert(fetched_views(sent)[i] == record_views(rs)[i]);
        }
    } else {
        assert(fetched_views(r->Fetch_records@).len() == r->Fetch_records@.len());
    }
}

/// A record that is produced is stored with its own key and value, at the time
/// it came, at the end of the log.
pub proof fn law_stored_as_sent(v: LogView, r: ProduceRecord, timestamp_ms: i64)
    requires
        next_of(v) <= u64::MAX,
    ensures
        ({
            let s = as_record(v, r, timestamp_ms);
            &&& s.offset == next_of(v)
            &&& s.timestamp_ms == timestamp_ms
            &&& s.value == r.value@
            &&& s.key is Some <==> r.key is Some
            &&& r.key is Some ==> s.key->0 == r.key->0@
        }),
{
}

/// A batch fits where its offsets stay within their range and its bytes can be
/// counted.
pub proof fn law_room(v: LogView, n: nat, size: nat, rs: Seq<ProduceRecord>)
    ensures
        has_room(v, n, size) <==> next_of(v) + n <= MAX_OFFSET && size <= usize::MAX && v.dirty
            + size <= u64::MAX,
        rs.len() > 0 ==> batch_size(rs) == batch_size(rs.drop_last()) + stored_size(rs.last()),
        rs.len() == 0 ==> batch_size(rs) == 0,
{
}

/// Only a group can be out of room, for members or generations: no other
/// request is ever turned away for that.
pub proof fn law_room_for(s: BrokerView, req: Request)
    ensures
        !(req is JoinGroup) && !(req is LeaveGroup) ==> has_room_for(s, req),
        req is JoinGroup ==> (has_room_for(s, req) <==> ({
            let g = group_or_new(s.groups.groups, req->JoinGroup_group@);
            g.generation < u64::MAX && g.members.len() < u32::MAX
        })),
{
}

} // verus!
