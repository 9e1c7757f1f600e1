//! What clients of a broker are promised.

use super::cluster::fetched_views;
use super::dispatch::{dispatches, AckWait, Route};
use super::fetch::{below, lemma_below};
use super::groups::fence;
use super::{replica_index, BrokerView};
use crate::client::position_after;
use crate::proto::{Acks, ErrorCode, FetchedRecord, Request, Response};
use crate::storage::disk::{all_records, kept, law_offsets, law_read, Disk};
use crate::storage::log::{log_ok, next_of, read_result, segment_at, start_of, LogView};
use crate::storage::segment::read_position;
use vstd::prelude::*;

verus! {

/// A zombie's commit is refused: a member that missed a rebalance, or that the
/// group does not know, never gets a commit into the offsets log.
pub proof fn law_zombie_commit_refused(
    s: BrokerView,
    t: BrokerView,
    req: Request,
    log_end: u64,
    now_ms: u64,
    route: Route,
)
    requires
        dispatches(s, t, req, log_end, now_ms, route),
        req matches Request::CommitOffset { group, member_id, generation, .. } && member_id@.len()
            > 0 && fence(s.groups.groups, group@, member_id@, generation) != ErrorCode::NoError,
    ensures
        route matches Route::Reply(Response::CommitOffset { error }) && error != ErrorCode::NoError,
        t == s,
{
}

/// A produce at acks=0 is never answered, whatever becomes of it.
pub proof fn law_acks_zero_silent(
    s: BrokerView,
    t: BrokerView,
    req: Request,
    log_end: u64,
    now_ms: u64,
    route: Route,
)
    requires
        dispatches(s, t, req, log_end, now_ms, route),
        req matches Request::Produce { acks, .. } && acks == Acks::NoAck,
    ensures
        route is Silent || (route matches Route::Append { wait, .. } && wait == AckWait::Nobody),
{
}

/// In a cluster only the leader takes records in, and only in its own epoch: a
/// produce that reaches a writer came to the partition's leader, with its epoch
/// or none.
pub proof fn law_only_leader_appends(
    s: BrokerView,
    t: BrokerView,
    req: Request,
    log_end: u64,
    now_ms: u64,
    route: Route,
)
    requires
        s.clustered,
        dispatches(s, t, req, log_end, now_ms, route),
        route is Append,
    ensures
        req matches Request::Produce { topic, partition, acks, leader_epoch, .. } && (replica_index(
            s.replicas,
            topic@,
            partition,
        ) matches Some(i) && s.replicas[i].state.is_leader && (leader_epoch == 0 || leader_epoch
            == s.replicas[i].state.epoch) && (acks == Acks::All ==> s.replicas[i].state.isr.len()
            >= s.min_isr)),
{
}

/// In a cluster a consumer is never served past the high-water mark: its fetch
/// is refused, or bounded by the mark.
pub proof fn law_consumers_see_committed(
    s: BrokerView,
    t: BrokerView,
    req: Request,
    log_end: u64,
    now_ms: u64,
    route: Route,
)
    requires
        s.clustered,
        dispatches(s, t, req, log_end, now_ms, route),
        req is Fetch,
    ensures
        route is Reply || route is FetchCommitted,
{
}

/// A request is answered with a response of its own type, or handed on.
pub proof fn law_answers_match(
    s: BrokerView,
    t: BrokerView,
    req: Request,
    log_end: u64,
    now_ms: u64,
    route: Route,
)
    requires
        dispatches(s, t, req, log_end, now_ms, route),
        route is Reply,
    ensures
        match req {
            Request::CreateTopic { .. } => route->Reply_0 is CreateTopic,
            Request::Metadata => route->Reply_0 is Metadata,
            Request::Produce { .. } => route->Reply_0 is Produce,
            Request::Fetch { .. } => route->Reply_0 is Fetch,
            Request::CommitOffset { .. } => route->Reply_0 is CommitOffset,
            Request::FetchOffset { .. } => route->Reply_0 is FetchOffset,
            Request::JoinGroup { .. } => route->Reply_0 is JoinGroup,
            Request::Heartbeat { .. } => route->Reply_0 is Heartbeat,
            Request::LeaveGroup { .. } => route->Reply_0 is LeaveGroup,
            Request::ReplicaFetch { .. } => route->Reply_0 is ReplicaFetch,
            Request::EpochCheck { .. } => route->Reply_0 is EpochCheck,
            Request::RegisterBroker { .. } => route->Reply_0 is RegisterBroker,
            Request::BrokerHeartbeat { .. } => route->Reply_0 is BrokerHeartbeat,
            Request::AlterIsr { .. } => route->Reply_0 is AlterIsr,
            Request::ControllerMetadata => route->Reply_0 is ControllerMetadata,
        },
{
}

/// Consumers see a partition's records in the order of their offsets, without a
/// gap: a fetch is answered with the run of the log's records from the offset
/// asked for on, at least one and none at or past the high-water mark, and the
/// consumer goes on right behind it. `fs` are the records of the answer.
pub proof fn law_consumed_in_order(
    v: LogView,
    d: Disk,
    offset: u64,
    max_bytes: u64,
    high_watermark: u64,
    fs: Seq<FetchedRecord>,
)
    requires
        log_ok(v),
        kept(v, d),
        start_of(v) <= offset < high_watermark <= next_of(v),
        ({
            let s = v.segments[segment_at(v.segments, offset as nat)];
            let buf = d.logs[s.base].skip(read_position(s, offset as nat) as int);
            let read = read_result(v, offset, max_bytes, buf);
            read is Ok ==> fetched_views(fs) == below(read->Ok_0, high_watermark)
        }),
    ensures
        ({
            let from = offset - start_of(v);
            let all = all_records(v, d);
            &&& fs.len() > 0
            &&& from + fs.len() <= all.len()
            &&& fetched_views(fs) == all.subrange(from, from + fs.len())
            &&& forall|i: int| 0 <= i < fs.len() ==> (#[trigger] fs[i]).offset == offset + i
            &&& position_after(offset, fs) == offset + fs.len()
            &&& position_after(offset, fs) <= high_watermark
        }),
{
    law_read(v, d, offset, max_bytes);
    law_offsets(v, d);
    let s = v.segments[segment_at(v.segments, offset as nat)];
    let buf = d.logs[s.base].skip(read_position(s, offset as nat) as int);
    let got = read_result(v, offset, max_bytes, buf)->Ok_0;
    let from = offset - start_of(v);
    let all = all_records(v, d);
    let room = high_watermark - offset;
    let k: int = if got.len() <= room {
        got.len() as int
    } else {
        room
    };
    assert forall|i: int| 0 <= i < got.len() implies (#[trigger] got[i]).offset == offset + i by {
        assert(got[i] == all[from + i]);
    }
    lemma_below(got, high_watermark, k);
    let views = fetched_views(fs);
    assert(views =~= got.take(k));
    assert(fs.len() == views.len());
    assert(views =~= all.subrange(from, from + fs.len()));
    assert forall|i: int| 0 <= i < fs.len() implies (#[trigger] fs[i]).offset == offset + i by {
        assert(views[i] == got[i]);
        assert(views[i].offset == fs[i].offset);
    }
}

} // verus!
