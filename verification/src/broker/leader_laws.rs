//! What a leader takes in, counts as committed and hands on.

use super::cluster::{
    advanced, as_fetched, covered, fetch_refusal, fetched, fetched_views, next_hwm, parked,
    produce_refusal, pulled, reconciled, replicated, role_action, role_applied, wanted_isr,
    FetchStep, Pending, Progress, ReplView, RoleAction,
};
use super::offsets::record_views;
use super::partition::failures;
use super::replica_laws::{law_replicated, law_wanted_isr};
use super::runtime::{fresh_replica, role_settled};
use crate::client::ClientError;
use crate::controller::as_leader;
use crate::ids::law_sorted_ids;
use crate::order::lemma_push_has;
use crate::proto::{Acks, ErrorCode, PartitionMeta, Response};
use vstd::prelude::*;

verus! {

/// A produce is taken in exactly where it reached the leader, with the leader's
/// own epoch or none, and, at acks=all, with enough replicas in sync; each
/// reason to refuse it has its own code, the first that holds.
pub proof fn law_produce_taken(v: ReplView, acks: Acks, epoch: u64, min_isr: u32)
    ensures
        ({
            let r = produce_refusal(v, acks, epoch, min_isr);
            let own = epoch == 0 || epoch == v.epoch;
            let enough = acks == Acks::All ==> v.isr.len() >= min_isr;
            &&& r is None <==> v.is_leader && own && enough
            &&& r == Some(ErrorCode::NotLeader) <==> !v.is_leader
            &&& r == Some(ErrorCode::FencedEpoch) <==> v.is_leader && !own
            &&& r == Some(ErrorCode::NotEnoughReplicas) <==> v.is_leader && own && !enough
        }),
{
}

/// A follower's fetch is served exactly where it reached the leader with the
/// leader's own epoch.
pub proof fn law_follower_served(v: ReplView, epoch: u64)
    ensures
        fetch_refusal(v, epoch) is None <==> v.is_leader && epoch == v.epoch,
        fetch_refusal(v, epoch) == Some(ErrorCode::NotLeader) <==> !v.is_leader,
        fetch_refusal(v, epoch) == Some(ErrorCode::FencedEpoch) <==> v.is_leader && epoch
            != v.epoch,
{
}

proof fn lemma_replicated_reaches(
    isr: Seq<u32>,
    progress: Map<u32, Progress>,
    self_id: u32,
    log_end: u64,
    x: u64,
)
    requires
        x <= log_end,
        forall|id: u32| #[trigger]
            isr.contains(id) && id != self_id ==> progress.contains_key(id) && progress[id].offset
                >= x,
    ensures
        replicated(isr, progress, self_id, log_end) >= x,
{
    law_replicated(isr, progress, self_id, log_end, self_id);
}

pub proof fn lemma_sorted_out(ps: Seq<Pending>, hwm: u64, p: Pending)
    ensures
        covered(ps, hwm).contains(p) <==> ps.contains(p) && p.last_offset < hwm,
        parked(ps, hwm).contains(p) <==> ps.contains(p) && p.last_offset >= hwm,
    decreases ps.len(),
{
    if ps.len() > 0 {
        let head = ps.drop_last();
        lemma_sorted_out(head, hwm, p);
        assert(ps =~= head.push(ps.last()));
        lemma_push_has(head, ps.last(), p);
        lemma_push_has(covered(head, hwm), ps.last(), p);
        lemma_push_has(parked(head, hwm), ps.last(), p);
    }
}

/// The high watermark follows the ISR: once the leader and every other member
/// of the ISR hold the log up to an offset, the high watermark is there, every
/// parked produce below it is answered, and those above stay parked.
pub proof fn law_hwm_follows(v: ReplView, self_id: u32, log_end: u64, x: u64)
    requires
        v.is_leader,
        x <= log_end,
        forall|id: u32| #[trigger]
            v.isr.contains(id) && id != self_id ==> v.progress.contains_key(id)
                && v.progress[id].offset >= x,
    ensures
        ({
            let w = advanced(v, self_id, log_end);
            let acked = covered(v.pending, w.hwm);
            &&& w.hwm >= x
            &&& w.hwm >= v.hwm
            &&& w.hwm == next_hwm(v, self_id, log_end)
            &&& forall|p: Pending| #[trigger]
                v.pending.contains(p) && p.last_offset < x ==> acked.contains(p)
                    && !w.pending.contains(p)
            &&& forall|p: Pending| #[trigger]
                v.pending.contains(p) && p.last_offset >= w.hwm ==> w.pending.contains(p)
                    && !acked.contains(p)
            &&& forall|p: Pending| #[trigger] acked.contains(p) ==> v.pending.contains(p)
            &&& forall|p: Pending| #[trigger] w.pending.contains(p) ==> v.pending.contains(p)
        }),
{
    lemma_replicated_reaches(v.isr, v.progress, self_id, log_end, x);
    let w = advanced(v, self_id, log_end);
    assert forall|p: Pending| #[trigger] v.pending.contains(p) && p.last_offset < x implies covered(
        v.pending,
        w.hwm,
    ).contains(p) && !w.pending.contains(p) by {
        lemma_sorted_out(v.pending, w.hwm, p);
    }
    assert forall|p: Pending| #[trigger]
        v.pending.contains(p) && p.last_offset >= w.hwm implies w.pending.contains(p) && !covered(
        v.pending,
        w.hwm,
    ).contains(p) by {
        lemma_sorted_out(v.pending, w.hwm, p);
    }
    assert forall|p: Pending| #[trigger] covered(v.pending, w.hwm).contains(p) implies v.pending.contains(
        p,
    ) by {
        lemma_sorted_out(v.pending, w.hwm, p);
    }
    assert forall|p: Pending| #[trigger] w.pending.contains(p) implies v.pending.contains(p) by {
        lemma_sorted_out(v.pending, w.hwm, p);
    }
}

/// A leader alone in its ISR commits what it holds.
pub proof fn law_alone_commits(v: ReplView, self_id: u32, log_end: u64)
    requires
        v.is_leader,
        v.isr == seq![self_id],
        v.hwm <= log_end,
    ensures
        advanced(v, self_id, log_end).hwm == log_end,
{
    law_hwm_follows(v, self_id, log_end, log_end);
    super::replica_laws::law_hwm_within_log(v, self_id, log_end);
}

/// One that does not lead commits and answers nothing.
pub proof fn law_follower_commits_nothing(v: ReplView, self_id: u32, log_end: u64)
    requires
        !v.is_leader,
    ensures
        advanced(v, self_id, log_end) == v,
{
}

/// A follower's fetch from an offset says that it holds the log up to there; it
/// is caught up now exactly where nothing was left for it; the others' progress
/// and the rest of the state are as they were.
pub proof fn law_progress(
    v: ReplView,
    id: u32,
    offset: u64,
    log_end: u64,
    now_ms: u64,
    other: u32,
)
    requires
        other != id,
    ensures
        ({
            let w = fetched(v, id, offset, log_end, now_ms);
            &&& w.progress.contains_key(id)
            &&& w.progress[id].offset == offset
            &&& offset >= log_end ==> w.progress[id].caught_up_ms == now_ms
            &&& offset < log_end && v.progress.contains_key(id) ==> w.progress[id].caught_up_ms
                == v.progress[id].caught_up_ms
            &&& offset < log_end && !v.progress.contains_key(id) ==> w.progress[id].caught_up_ms
                == v.leader_since
            &&& w.progress.contains_key(other) == v.progress.contains_key(other)
            &&& v.progress.contains_key(other) ==> w.progress[other] == v.progress[other]
            &&& w == (ReplView { progress: w.progress, ..v })
        }),
{
}

/// The ISR that a leader asks for is itself and every replica that was caught
/// up within the lag, counted from its last full fetch or, before the first,
/// from the start of the leadership; in order.
pub proof fn law_isr_by_lag(v: ReplView, self_id: u32, now_ms: u64, lag_ms: u64, id: u32)
    ensures
        ({
            let since = if v.progress.contains_key(id) {
                v.progress[id].caught_up_ms
            } else {
                v.leader_since
            };
            let isr = wanted_isr(v, self_id, now_ms, lag_ms);
            &&& isr.contains(self_id)
            &&& id != self_id ==> (isr.contains(id) <==> v.replicas.contains(id) && now_ms - since
                <= lag_ms)
            &&& forall|i: int, j: int| 0 <= i < j < isr.len() ==> isr[i] <= isr[j]
        }),
{
    law_wanted_isr(v, self_id, now_ms, lag_ms, id);
    law_wanted_isr(v, self_id, now_ms, lag_ms, self_id);
    law_sorted_ids(
        seq![self_id] + super::cluster::in_sync(v, v.replicas, self_id, now_ms, lag_ms),
    );
}

/// A role is what the metadata says: the partition's leader leads and every
/// other replica follows that leader, in the metadata's epoch and with its ISR.
/// A new leader starts with no progress known; one that stops leading keeps no
/// produce parked; and the high watermark stays.
pub proof fn law_role(v: ReplView, p: PartitionMeta, self_id: u32, now_ms: u64)
    requires
        v.generation < u64::MAX,
    ensures
        ({
            let leads = p.leader == as_leader(self_id);
            let same = v.epoch == p.leader_epoch && v.is_leader == leads;
            let w = role_applied(v, p, self_id, now_ms);
            let a = role_action(v, p, self_id);
            &&& w.is_leader == leads
            &&& w.epoch == p.leader_epoch
            &&& w.isr == p.isr@
            &&& w.hwm == v.hwm
            &&& w.replicas == (if same {
                v.replicas
            } else {
                p.replicas@
            })
            &&& !same && leads ==> a is Lead && w.progress == Map::<u32, Progress>::empty()
                && w.leader_since == now_ms && !w.alive && w.pending == v.pending
            &&& !same && !leads ==> w.pending.len() == 0
            &&& !leads && p.leader >= 0 && (!same || !v.alive) ==> a == (RoleAction::Follow {
                generation: (v.generation + 1) as u64,
            }) && w.generation == v.generation + 1 && w.alive
            &&& !leads && p.leader < 0 && !same ==> a is Wait && !w.alive && w.generation
                == v.generation + 1
            &&& same && (leads || v.alive || p.leader < 0) ==> a is Keep && w == (ReplView {
                isr: p.isr@,
                ..v
            })
        }),
{
}

/// A leader that takes on its role counts at once what its ISR already holds.
pub proof fn law_role_counts(
    v: ReplView,
    p: PartitionMeta,
    self_id: u32,
    log_end: u64,
    now_ms: u64,
)
    requires
        v.generation < u64::MAX,
        p.leader == as_leader(self_id),
        p.isr@ == seq![self_id],
        v.hwm <= log_end,
    ensures
        role_settled(v, p, self_id, log_end, now_ms).hwm == log_end,
{
    law_role(v, p, self_id, now_ms);
    law_alone_commits(role_applied(v, p, self_id, now_ms), self_id, log_end);
}

/// A follower cuts its log exactly to the end that the leader names for its
/// epoch, where it has more than that, and otherwise fetches on; it stops where
/// it is no longer the current fetcher and asks for new metadata on any other
/// answer.
pub proof fn law_reconciled(
    error: ErrorCode,
    end_offset: u64,
    current: bool,
    local_end: u64,
    step: FetchStep,
)
    requires
        reconciled(
            Ok::<Response, ClientError>(Response::EpochCheck { error, end_offset }),
            current,
            local_end,
            step,
        ),
    ensures
        error != ErrorCode::NoError <==> step is Refresh,
        error == ErrorCode::NoError && !current <==> step is Stop,
        error == ErrorCode::NoError && current && end_offset < local_end <==> step is Truncate,
        error == ErrorCode::NoError && current && end_offset >= local_end <==> step is Fetch,
        step matches FetchStep::Truncate { to } ==> to == end_offset,
{
}

/// A current follower appends exactly the records that the leader sent, and
/// notes the leader's epoch exactly where it is newer than its own.
pub proof fn law_pulled(
    reply: Response,
    current: bool,
    local_epoch: u64,
    step: FetchStep,
)
    requires
        reply is ReplicaFetch,
        pulled(Ok::<Response, ClientError>(reply), current, local_epoch, step),
    ensures
        reply->ReplicaFetch_error != ErrorCode::NoError <==> step is Refresh,
        reply->ReplicaFetch_error == ErrorCode::NoError && !current <==> step is Stop,
        reply->ReplicaFetch_error == ErrorCode::NoError && current <==> step is Append,
        step matches FetchStep::Append { epoch, records } ==> {
            let sent = reply->ReplicaFetch_records@;
            &&& epoch is Some <==> reply->ReplicaFetch_leader_epoch > local_epoch
            &&& epoch is Some ==> epoch->0 == reply->ReplicaFetch_leader_epoch
            &&& records@.len() == sent.len()
            &&& forall|i: int|
                0 <= i < sent.len() ==> {
                    let r = (#[trigger] records@[i])@;
                    &&& r.offset == sent[i].offset
                    &&& r.timestamp_ms == sent[i].timestamp_ms
                    &&& r.value == sent[i].value@
                    &&& r.key is Some <==> sent[i].key is Some
                    &&& sent[i].key is Some ==> r.key->0 == sent[i].key->0@
                }
        },
{
    if let FetchStep::Append { epoch, records } = step {
        let sent = reply->ReplicaFetch_records@;
        assert(record_views(records@).len() == records@.len());
        assert(fetched_views(sent).len() == sent.len());
        assert forall|i: int| 0 <= i < sent.len() implies (#[trigger] records@[i])@ == as_fetched(
            sent[i],
        ) by {
            assert(record_views(records@)[i] == fetched_views(sent)[i]);
        }
    }
}

/// Every produce that fails is answered, with its own ticket and the code.
pub proof fn law_failures(ps: Seq<Pending>, code: ErrorCode, i: int)
    requires
        0 <= i < ps.len(),
    ensures
        failures(ps, code).len() == ps.len(),
        failures(ps, code)[i].ticket == ps[i].ticket,
        failures(ps, code)[i].result == Err::<(u64, u32), ErrorCode>(code),
{
}

/// A replica that was just opened serves nothing and commits nothing; the first
/// metadata that names a leader gives it its role.
pub proof fn law_fresh_replica(now_ms: u64, p: PartitionMeta, self_id: u32)
    ensures
        ({
            let v = fresh_replica(now_ms);
            &&& !v.is_leader && v.hwm == 0 && v.pending.len() == 0
            &&& p.leader == as_leader(self_id) ==> role_action(v, p, self_id) is Lead
            &&& p.leader != as_leader(self_id) && p.leader >= 0 ==> role_action(v, p, self_id)
                == (RoleAction::Follow { generation: 1 })
        }),
{
}

} // verus!
