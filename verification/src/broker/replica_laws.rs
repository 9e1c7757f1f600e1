//! What replication promises.

use super::cluster::{
    advanced, covered, fetch_refusal, fetched, in_sync, last_caught_up, leads, matched, next_hwm,
    parked, produce_refusal, replicated, role_applied, role_unchanged, wanted_isr, Pending,
    Progress, ReplView,
};
use crate::ids::{law_sorted_ids, lemma_push_contains};
use crate::proto::{Acks, PartitionMeta};
use vstd::prelude::*;

verus! {

/// What counts as replicated is on the leader and on every follower in the ISR.
pub proof fn law_replicated(
    isr: Seq<u32>,
    progress: Map<u32, Progress>,
    self_id: u32,
    log_end: u64,
    id: u32,
)
    ensures
        replicated(isr, progress, self_id, log_end) <= log_end,
        isr.contains(id) && id != self_id ==> replicated(isr, progress, self_id, log_end)
            <= matched(progress, id),
        replicated(isr, progress, self_id, log_end) == log_end || exists|x: u32|
            isr.contains(x) && x != self_id && #[trigger] matched(progress, x) == replicated(
                isr,
                progress,
                self_id,
                log_end,
            ),
    decreases isr.len(),
{
    if isr.len() > 0 {
        let head = isr.drop_last();
        law_replicated(head, progress, self_id, log_end, id);
        lemma_push_contains(head, isr.last(), id);
        assert(head.push(isr.last()) =~= isr);
        let low = replicated(head, progress, self_id, log_end);
        if replicated(isr, progress, self_id, log_end) == low {
            if low != log_end {
                let x = choose|x: u32|
                    head.contains(x) && x != self_id && #[trigger] matched(progress, x) == low;
                lemma_push_contains(head, isr.last(), x);
                assert(isr.contains(x));
            }
        } else {
            lemma_push_contains(head, isr.last(), isr.last());
            assert(isr.contains(isr.last()));
            assert(matched(progress, isr.last()) == replicated(isr, progress, self_id, log_end));
        }
    }
}

/// The high-water mark never falls: not with a look at the progress, not with a
/// fetch, not with a role.
pub proof fn law_hwm_never_falls(
    v: ReplView,
    self_id: u32,
    log_end: u64,
    id: u32,
    offset: u64,
    p: PartitionMeta,
    now_ms: u64,
)
    ensures
        advanced(v, self_id, log_end).hwm >= v.hwm,
        fetched(v, id, offset, log_end, now_ms).hwm == v.hwm,
        role_applied(v, p, self_id, now_ms).hwm == v.hwm,
{
}

/// A mark within the log stays within it.
pub proof fn law_hwm_within_log(v: ReplView, self_id: u32, log_end: u64)
    requires
        v.hwm <= log_end,
    ensures
        advanced(v, self_id, log_end).hwm <= log_end,
{
    law_replicated(v.isr, v.progress, self_id, log_end, self_id);
}

/// Whenever the mark moves, everything below it is on every follower in the
/// ISR: data that a consumer may see, or that was acknowledged at acks=all,
/// survives the leader.
pub proof fn law_committed_is_replicated(v: ReplView, self_id: u32, log_end: u64, id: u32)
    requires
        v.is_leader,
        advanced(v, self_id, log_end).hwm != v.hwm,
        v.isr.contains(id),
        id != self_id,
    ensures
        advanced(v, self_id, log_end).hwm <= matched(v.progress, id),
{
    law_replicated(v.isr, v.progress, self_id, log_end, id);
}

proof fn lemma_covered(ps: Seq<Pending>, hwm: u64)
    ensures
        covered(ps, hwm).len() + parked(ps, hwm).len() == ps.len(),
        forall|i: int|
            0 <= i < covered(ps, hwm).len() ==> (#[trigger] covered(ps, hwm)[i]).last_offset < hwm
                && ps.contains(covered(ps, hwm)[i]),
        forall|i: int|
            0 <= i < parked(ps, hwm).len() ==> (#[trigger] parked(ps, hwm)[i]).last_offset >= hwm
                && ps.contains(parked(ps, hwm)[i]),
    decreases ps.len(),
{
    if ps.len() > 0 {
        let head = ps.drop_last();
        lemma_covered(head, hwm);
        assert forall|i: int| 0 <= i < covered(ps, hwm).len() implies (#[trigger] covered(
            ps,
            hwm,
        )[i]).last_offset < hwm && ps.contains(covered(ps, hwm)[i]) by {
            if i < covered(head, hwm).len() {
                assert(head.contains(covered(head, hwm)[i]));
                let k = choose|k: int| 0 <= k < head.len() && head[k] == covered(head, hwm)[i];
                assert(ps[k] == covered(ps, hwm)[i]);
            } else {
                assert(ps[ps.len() - 1] == covered(ps, hwm)[i]);
            }
        }
        assert forall|i: int| 0 <= i < parked(ps, hwm).len() implies (#[trigger] parked(
            ps,
            hwm,
        )[i]).last_offset >= hwm && ps.contains(parked(ps, hwm)[i]) by {
            if i < parked(head, hwm).len() {
                assert(head.contains(parked(head, hwm)[i]));
                let k = choose|k: int| 0 <= k < head.len() && head[k] == parked(head, hwm)[i];
                assert(ps[k] == parked(ps, hwm)[i]);
            } else {
                assert(ps[ps.len() - 1] == parked(ps, hwm)[i]);
            }
        }
    }
}

/// An acks=all produce is acknowledged when, and only when, the high-water mark
/// has passed its last record; until it has, it stays parked.
pub proof fn law_all_acked_when_committed(v: ReplView, self_id: u32, log_end: u64, i: int)
    requires
        v.is_leader,
    ensures
        ({
            let hwm = next_hwm(v, self_id, log_end);
            let acked = covered(v.pending, hwm);
            let left = advanced(v, self_id, log_end).pending;
            &&& acked.len() + left.len() == v.pending.len()
            &&& 0 <= i < acked.len() ==> acked[i].last_offset < hwm
            &&& 0 <= i < left.len() ==> left[i].last_offset >= hwm
        }),
{
    lemma_covered(v.pending, next_hwm(v, self_id, log_end));
}

/// A leader that was deposed answers neither producers nor followers: whoever
/// speaks of another epoch than the replica's is refused.
pub proof fn law_stale_epoch_refused(v: ReplView, acks: Acks, epoch: u64, min_isr: u32)
    requires
        epoch != 0,
        epoch != v.epoch || !v.is_leader,
    ensures
        produce_refusal(v, acks, epoch, min_isr) is Some,
        fetch_refusal(v, epoch) is Some,
{
}

/// acks=all is refused below the least number of in-sync replicas.
pub proof fn law_min_isr(v: ReplView, epoch: u64, min_isr: u32)
    requires
        v.isr.len() < min_isr,
    ensures
        produce_refusal(v, Acks::All, epoch, min_isr) is Some,
{
}

proof fn lemma_in_sync(v: ReplView, ids: Seq<u32>, self_id: u32, now_ms: u64, lag_ms: u64, id: u32)
    ensures
        in_sync(v, ids, self_id, now_ms, lag_ms).contains(id) <==> ids.contains(id) && id != self_id
            && now_ms - last_caught_up(v, id) <= lag_ms,
    decreases ids.len(),
{
    if ids.len() > 0 {
        let head = ids.drop_last();
        lemma_in_sync(v, head, self_id, now_ms, lag_ms, id);
        lemma_push_contains(head, ids.last(), id);
        assert(head.push(ids.last()) =~= ids);
        lemma_push_contains(in_sync(v, head, self_id, now_ms, lag_ms), ids.last(), id);
    }
}

/// The ISR that a leader wants holds itself and exactly the replicas that were
/// caught up within the lag window.
pub proof fn law_wanted_isr(v: ReplView, self_id: u32, now_ms: u64, lag_ms: u64, id: u32)
    ensures
        wanted_isr(v, self_id, now_ms, lag_ms).contains(id) <==> id == self_id || (
        v.replicas.contains(id) && now_ms - last_caught_up(v, id) <= lag_ms),
{
    let rest = in_sync(v, v.replicas, self_id, now_ms, lag_ms);
    let all = seq![self_id] + rest;
    lemma_in_sync(v, v.replicas, self_id, now_ms, lag_ms, id);
    law_sorted_ids(all);
    if all.contains(id) {
        let k = choose|k: int| 0 <= k < all.len() && all[k] == id;
        if k > 0 {
            assert(rest[k - 1] == id);
        }
    }
    if id == self_id {
        assert(all[0] == id);
    }
    if rest.contains(id) {
        let k = choose|k: int| 0 <= k < rest.len() && rest[k] == id;
        assert(all[k + 1] == id);
    }
}

/// A follower that only fetches, without reaching the log end, falls out of the
/// ISR: its fetches do not move its caught-up clock.
pub proof fn law_lagging_falls_out(
    v: ReplView,
    id: u32,
    offset: u64,
    log_end: u64,
    now_ms: u64,
)
    requires
        offset < log_end,
    ensures
        last_caught_up(fetched(v, id, offset, log_end, now_ms), id) == last_caught_up(v, id),
        matched(fetched(v, id, offset, log_end, now_ms).progress, id) == offset,
{
}

/// A broker that loses the lead fails what it had parked, and no fetcher or
/// produce of the old epoch goes on; one that takes the lead forgets what it
/// knew of followers.
pub proof fn law_role_change(v: ReplView, p: PartitionMeta, self_id: u32, now_ms: u64)
    requires
        v.generation < u64::MAX,
        !role_unchanged(v, p, self_id),
    ensures
        ({
            let w = role_applied(v, p, self_id, now_ms);
            &&& w.epoch == p.leader_epoch
            &&& w.generation > v.generation
            &&& w.is_leader == leads(p, self_id)
            &&& leads(p, self_id) ==> w.progress == Map::<u32, Progress>::empty()
            &&& !leads(p, self_id) ==> w.pending.len() == 0
        }),
{
}

} // verus!
