//! What holds across a failover: replication, election and reconciliation taken
//! together.

use super::cluster::{
    advanced, covered, fetched, leads, matched, next_hwm, reconciled, role_applied, role_unchanged,
    FetchStep, Pending, ReplView,
};
use super::replica_laws::{law_all_acked_when_committed, law_replicated, law_role_change};
use crate::controller::laws::law_election;
use crate::controller::{as_leader, elected, is_alive, BrokerInfo, PartitionInfo};
use crate::ids::all_in;
use crate::proto::{ErrorCode, PartitionMeta, Response};
use crate::storage::disk::{all_records, apply_all, kept, law_append, law_offsets, law_read, Disk};
use crate::storage::epoch::{end_offset, law_end_offset, law_end_offset_rises, monotonic};
use crate::storage::log::{
    append_ops, appended, log_ok, next_of, read_result, roomy, segment_at, start_of, written,
    LogView, MAX_OFFSET,
};
use crate::storage::record::{encoded_size, RecordView};
use crate::storage::segment::read_position;
use vstd::prelude::*;

verus! {

/// A write that was acknowledged at acks=all survives its leader: once the leader
/// is dead, whoever is elected has told the leader that it has the write, or
/// nobody is elected and the partition stays offline, with its ISR kept.
///
/// `q` is a produce that a look at the followers' progress acknowledges; the
/// controller elects from the ISR that the leader counts with, or from what is
/// left of it. (A replica that comes into the ISR later need not have the write:
/// it may have been caught up within the lag window and be behind now.)
pub proof fn law_acked_survives_failover(
    v: ReplView,
    self_id: u32,
    log_end: u64,
    p: PartitionInfo,
    bs: Seq<BrokerInfo>,
    q: Pending,
)
    requires
        v.is_leader,
        forall|j: int| 0 <= j < v.pending.len() ==> (#[trigger] v.pending[j]).last_offset >= v.hwm,
        covered(v.pending, next_hwm(v, self_id, log_end)).contains(q),
        all_in(p.isr, v.isr),
        p.leader == as_leader(self_id),
        p.leader >= 0,
        p.epoch < u64::MAX,
        !is_alive(bs, self_id),
    ensures
        ({
            let e = elected(p, bs);
            ||| e.leader == -1 && e.isr == p.isr
            ||| exists|id: u32| #[trigger]
                v.isr.contains(id) && id != self_id && is_alive(bs, id) && e.leader == as_leader(id)
                    && q.last_offset < matched(v.progress, id)
        }),
{
    let hwm = next_hwm(v, self_id, log_end);
    let acked = covered(v.pending, hwm);
    let k = choose|k: int| 0 <= k < acked.len() && acked[k] == q;
    law_all_acked_when_committed(v, self_id, log_end, k);
    lemma_covered_from(v.pending, hwm, q);
    assert(hwm != v.hwm);
    assert(p.leader as u32 == self_id) by {
        assert(as_leader(self_id) >= 0);
    }
    law_election(p, bs);
    match crate::controller::first_alive(p.isr, bs) {
        Some(id) => {
            let i = choose|i: int| 0 <= i < p.isr.len() && p.isr[i] == id;
            assert(v.isr.contains(p.isr[i]));
            law_replicated(v.isr, v.progress, self_id, log_end, id);
        },
        None => {},
    }
}

proof fn lemma_covered_from(ps: Seq<Pending>, hwm: u64, q: Pending)
    requires
        covered(ps, hwm).contains(q),
    ensures
        exists|j: int| 0 <= j < ps.len() && #[trigger] ps[j] == q,
        q.last_offset < hwm,
    decreases ps.len(),
{
    let c = covered(ps, hwm);
    let k = choose|k: int| 0 <= k < c.len() && c[k] == q;
    if ps.len() > 0 {
        let head = ps.drop_last();
        let h = covered(head, hwm);
        if k < h.len() {
            assert(h[k] == q);
            lemma_covered_from(head, hwm, q);
            let j = choose|j: int| 0 <= j < head.len() && #[trigger] head[j] == q;
            assert(ps[j] == q);
        } else {
            assert(ps[ps.len() - 1] == q);
        }
    }
}

/// A log and its files.
pub struct Stored {
    pub log: LogView,
    pub disk: Disk,
}

/// The records of a stored log.
pub open spec fn stored_records(s: Stored) -> Seq<RecordView> {
    all_records(s.log, s.disk)
}

/// A log is consistent, and its files are what it says.
pub open spec fn sound(s: Stored) -> bool {
    log_ok(s.log) && kept(s.log, s.disk)
}

/// A log that starts where another starts and holds what that one holds, as far
/// as it goes.
pub open spec fn follows(f: Stored, leader: Stored) -> bool {
    &&& sound(f)
    &&& start_of(f.log) == start_of(leader.log)
    &&& stored_records(f).is_prefix_of(stored_records(leader))
}

/// Every follower that the leader has heard of holds a prefix of the leader's
/// log, at least as long as the leader thinks.
pub open spec fn in_step(v: ReplView, leader: Stored, followers: Map<u32, Stored>) -> bool {
    forall|id: u32| #[trigger]
        v.progress.contains_key(id) ==> {
            &&& followers.contains_key(id)
            &&& follows(followers[id], leader)
            &&& matched(v.progress, id) <= next_of(followers[id].log)
        }
}

/// A broker that takes the lead has heard of nobody, so nobody is out of step.
pub proof fn law_lead_in_step(
    v: ReplView,
    p: PartitionMeta,
    self_id: u32,
    now_ms: u64,
    leader: Stored,
    followers: Map<u32, Stored>,
)
    requires
        v.generation < u64::MAX,
        !role_unchanged(v, p, self_id),
        leads(p, self_id),
    ensures
        in_step(role_applied(v, p, self_id, now_ms), leader, followers),
{
    law_role_change(v, p, self_id, now_ms);
}

/// An append of the leader's leaves its log sound, and puts no follower out of
/// step.
pub proof fn law_append_in_step(
    v: ReplView,
    leader: Stored,
    followers: Map<u32, Stored>,
    r: RecordView,
    now_ms: u64,
)
    requires
        in_step(v, leader, followers),
        sound(leader),
        next_of(leader.log) < MAX_OFFSET,
        r.offset == next_of(leader.log),
        encoded_size(r) <= leader.log.config.max_record_bytes,
    ensures
        sound(after_append(leader, r, now_ms)),
        in_step(v, after_append(leader, r, now_ms), followers),
{
    let w = after_append(leader, r, now_ms);
    law_append(leader.log, leader.disk, r, now_ms);
    lemma_appended_start(leader.log, r, now_ms);
    assert forall|id: u32| #[trigger] v.progress.contains_key(id) implies follows(
        followers[id],
        w,
    ) by {
        let f = stored_records(followers[id]);
        assert(f =~= stored_records(w).take(f.len() as int));
    }
}

/// A log and its files after an append.
pub open spec fn after_append(s: Stored, r: RecordView, now_ms: u64) -> Stored {
    Stored {
        log: appended(s.log, r, now_ms),
        disk: apply_all(s.disk, append_ops(s.log, r, now_ms)),
    }
}

proof fn lemma_appended_start(v: LogView, r: RecordView, now_ms: u64)
    requires
        log_ok(v),
    ensures
        start_of(appended(v, r, now_ms)) == start_of(v),
        next_of(appended(v, r, now_ms)) == next_of(v) + 1,
{
    let room = roomy(v, r, now_ms);
    assert(room.segments[0] == v.segments[0]);
    assert(written(room, r).segments[0].base == v.segments[0].base);
}

/// A fetch tells the leader how far the follower is: one that asks for what comes
/// behind its own log, which is a prefix of the leader's, is in step.
pub proof fn law_fetch_in_step(
    v: ReplView,
    leader: Stored,
    followers: Map<u32, Stored>,
    id: u32,
    f: Stored,
    log_end: u64,
    now_ms: u64,
)
    requires
        in_step(v, leader, followers),
        follows(f, leader),
    ensures
        in_step(
            fetched(v, id, next_of(f.log) as u64, log_end, now_ms),
            leader,
            followers.insert(id, f),
        ),
{
    let w = fetched(v, id, next_of(f.log) as u64, log_end, now_ms);
    assert forall|x: u32| #[trigger] w.progress.contains_key(x) implies {
        &&& followers.insert(id, f).contains_key(x)
        &&& follows(followers.insert(id, f)[x], leader)
        &&& matched(w.progress, x) <= next_of(followers.insert(id, f)[x].log)
    } by {
        if x != id {
            assert(v.progress.contains_key(x));
        }
    }
}

/// A follower that appends what its leader has at the follower's end stays in
/// step.
pub proof fn law_follow_in_step(
    v: ReplView,
    leader: Stored,
    followers: Map<u32, Stored>,
    id: u32,
    r: RecordView,
    now_ms: u64,
)
    requires
        in_step(v, leader, followers),
        v.progress.contains_key(id),
        sound(leader),
        next_of(followers[id].log) < next_of(leader.log),
        next_of(followers[id].log) < MAX_OFFSET,
        r == stored_records(leader)[next_of(followers[id].log) - start_of(leader.log)],
        encoded_size(r) <= followers[id].log.config.max_record_bytes,
    ensures
        follows(after_append(followers[id], r, now_ms), leader),
        in_step(v, leader, followers.insert(id, after_append(followers[id], r, now_ms))),
{
    let f = followers[id];
    let g = after_append(f, r, now_ms);
    law_offsets(leader.log, leader.disk);
    law_offsets(f.log, f.disk);
    law_append(f.log, f.disk, r, now_ms);
    lemma_appended_start(f.log, r, now_ms);
    let n = stored_records(g).len() as int;
    assert(stored_records(g) =~= stored_records(leader).take(n));
    assert forall|x: u32| #[trigger] v.progress.contains_key(x) implies {
        &&& followers.insert(id, g).contains_key(x)
        &&& follows(followers.insert(id, g)[x], leader)
        &&& matched(v.progress, x) <= next_of(followers.insert(id, g)[x].log)
    } by {}
}

/// Moving the high-water mark leaves everyone in step.
pub proof fn law_commit_in_step(
    v: ReplView,
    self_id: u32,
    log_end: u64,
    leader: Stored,
    followers: Map<u32, Stored>,
)
    requires
        in_step(v, leader, followers),
    ensures
        in_step(advanced(v, self_id, log_end), leader, followers),
{
    assert(advanced(v, self_id, log_end).progress == v.progress);
}

/// A write that was acknowledged at acks=all survives its leader: the log of
/// whoever is elected holds every record up to the write's last one, as the dead
/// leader's log held them, and a read there gives them back; or nobody is
/// elected.
///
/// The followers are in step, as the laws above keep them; the other premises
/// are those of `law_acked_survives_failover`.
pub proof fn law_acked_record_survives(
    v: ReplView,
    self_id: u32,
    leader: Stored,
    followers: Map<u32, Stored>,
    p: PartitionInfo,
    bs: Seq<BrokerInfo>,
    q: Pending,
    offset: u64,
    max_bytes: u64,
)
    requires
        v.is_leader,
        sound(leader),
        in_step(v, leader, followers),
        forall|j: int| 0 <= j < v.pending.len() ==> (#[trigger] v.pending[j]).last_offset >= v.hwm,
        covered(v.pending, next_hwm(v, self_id, next_of(leader.log) as u64)).contains(q),
        all_in(p.isr, v.isr),
        p.leader == as_leader(self_id),
        p.leader >= 0,
        p.epoch < u64::MAX,
        !is_alive(bs, self_id),
        start_of(leader.log) <= offset <= q.last_offset,
    ensures
        ({
            let e = elected(p, bs);
            ||| e.leader == -1 && e.isr == p.isr
            ||| exists|id: u32| #[trigger]
                followers.contains_key(id) && is_alive(bs, id) && e.leader == as_leader(id)
                    && holds_record(followers[id], leader, offset, max_bytes)
        }),
{
    let log_end = next_of(leader.log) as u64;
    law_acked_survives_failover(v, self_id, log_end, p, bs, q);
    let e = elected(p, bs);
    if !(e.leader == -1 && e.isr == p.isr) {
        let id = choose|id: u32| #[trigger]
            v.isr.contains(id) && id != self_id && is_alive(bs, id) && e.leader == as_leader(id)
                && q.last_offset < matched(v.progress, id);
        assert(v.progress.contains_key(id));
        let f = followers[id];
        law_offsets(f.log, f.disk);
        law_offsets(leader.log, leader.disk);
        law_read(f.log, f.disk, offset, max_bytes);
        let at = offset - start_of(leader.log);
        assert(stored_records(f)[at] == stored_records(leader)[at]);
        assert(followers.contains_key(id));
        assert(holds_record(f, leader, offset, max_bytes));
    }
}

/// A log holds the record that another holds at an offset, with all before it,
/// and a read at that offset begins with it.
pub open spec fn holds_record(f: Stored, leader: Stored, offset: u64, max_bytes: u64) -> bool {
    let s = f.log.segments[segment_at(f.log.segments, offset as nat)];
    let at = read_position(s, offset as nat) as int;
    let got = read_result(f.log, offset, max_bytes, f.disk.logs[s.base].skip(at));
    let i = offset - start_of(leader.log);
    &&& follows(f, leader)
    &&& offset < next_of(f.log)
    &&& 0 <= i < stored_records(leader).len()
    &&& stored_records(leader)[i].offset == offset
    &&& got matches Ok(rs) && rs.len() > 0 && rs[0] == stored_records(leader)[i]
}

/// The epoch that an offset was written in, by a history of epochs; 0 before the
/// history.
pub open spec fn epoch_at(es: Seq<(u64, u64)>, offset: u64) -> u64
    decreases es.len(),
{
    if es.len() == 0 {
        0
    } else if es.last().1 <= offset {
        es.last().0
    } else {
        epoch_at(es.drop_last(), offset)
    }
}

proof fn lemma_epoch_at(es: Seq<(u64, u64)>, i: int, offset: u64)
    requires
        monotonic(es),
        0 <= i < es.len(),
        es[i].1 <= offset,
        i + 1 < es.len() ==> offset < es[i + 1].1,
    ensures
        epoch_at(es, offset) == es[i].0,
    decreases es.len(),
{
    if i + 1 < es.len() {
        let n = es.len() - 1;
        assert(es[i + 1].1 <= es[n].1);
        lemma_epoch_at(es.drop_last(), i, offset);
    }
}

/// Two logs with their histories: what they wrote in one epoch at one offset is
/// the same, as an epoch has one leader, which gives out each offset once.
pub open spec fn one_leader_per_epoch(
    a: Seq<RecordView>,
    ah: Seq<(u64, u64)>,
    b: Seq<RecordView>,
    bh: Seq<(u64, u64)>,
) -> bool {
    forall|o: int|
        0 <= o < a.len() && o < b.len() && epoch_at(ah, o as u64) == epoch_at(bh, o as u64)
            ==> #[trigger] a[o] == b[o]
}

/// A replica that rejoins ends up with a prefix of its leader's log: the
/// divergent suffix is cut off, and everything that is kept is the leader's.
///
/// The replica's last epoch is one that the leader knows and that started where
/// the replica says, with one log before it. (An epoch that the leader has never
/// heard of is answered with the end of an older one, and records of the unknown
/// epoch below that end are kept.)
pub proof fn law_reconciled_is_prefix(
    leader: Seq<RecordView>,
    lh: Seq<(u64, u64)>,
    replica: Seq<RecordView>,
    rh: Seq<(u64, u64)>,
    i: int,
    step: FetchStep,
)
    requires
        monotonic(lh),
        monotonic(rh),
        leader.len() <= u64::MAX,
        replica.len() <= u64::MAX,
        forall|k: int| 0 <= k < lh.len() ==> (#[trigger] lh[k]).1 <= leader.len(),
        rh.len() > 0,
        0 <= i < lh.len(),
        lh[i] == rh.last(),
        one_leader_per_epoch(replica, rh, leader, lh),
        forall|o: int|
            0 <= o < rh.last().1 && o < replica.len() && o < leader.len() ==> #[trigger] replica[o]
                == leader[o],
        reconciled(
            Ok(
                (Response::EpochCheck {
                    error: ErrorCode::NoError,
                    end_offset: end_offset(lh, rh.last().0, leader.len() as u64),
                }),
            ),
            true,
            replica.len() as u64,
            step,
        ),
    ensures
        ({
            let kept = match step {
                FetchStep::Truncate { to } => replica.take(to as int),
                _ => replica,
            };
            kept.is_prefix_of(leader)
        }),
{
    let end = end_offset(lh, rh.last().0, leader.len() as u64);
    law_end_offset(lh, i, leader.len() as u64);
    law_end_offset_rises(lh, rh.last().0, rh.last().0, leader.len() as u64);
    let to = if end < replica.len() {
        end as int
    } else {
        replica.len() as int
    };
    let kept = replica.take(to);
    assert forall|o: int| 0 <= o < to implies #[trigger] kept[o] == leader[o] by {
        if o >= rh.last().1 {
            lemma_epoch_at(rh, rh.len() - 1, o as u64);
            lemma_epoch_at(lh, i, o as u64);
            assert(replica[o] == leader[o]);
        } else {
            assert(replica[o] == leader[o]);
        }
    }
    assert(kept =~= leader.take(to));
    assert(replica.take(replica.len() as int) =~= replica);
}

} // verus!
