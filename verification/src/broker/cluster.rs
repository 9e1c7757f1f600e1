//! Cluster mode: the broker's replication machinery.
//!
//! One `Replica` per hosted partition. Leaders track follower progress from
//! ReplicaFetch offsets, maintain the ISR (asking the controller to shrink or
//! expand it — the controller owns the tuple, the leader proposes), advance
//! the high-water mark as min(ISR match offsets, own log end), and park
//! acks=all produces until the HWM covers them. Followers reconcile history
//! via EpochCheck (truncate the divergent suffix), then pull and append
//! verbatim.

use super::offsets::record_views;
use crate::client::ClientError;
use crate::codec::from_bits32;
use crate::controller::as_leader;
use crate::ids::{copy_ids, same_ids, sort_ids, sorted_ids};
use crate::proto::{opt_view, Acks, ErrorCode, FetchedRecord, PartitionMeta, Request, Response};
use crate::storage::record::{Record, RecordView};
use std::collections::HashMap;
use vstd::prelude::*;
use vstd::std_specs::hash::*;

verus! {

/// How far a follower has come: the next offset it asked for, and when it was
/// last *caught up* — i.e. fetched at or past the leader's log end. ISR
/// membership keys off the second field: "was caught up recently", not "was
/// caught up once" (a dead follower's match offset stays maxed forever) and
/// not "fetched recently" (a perpetually lagging follower fetches constantly
/// without catching up).
#[derive(Clone, Copy)]
pub struct Progress {
    pub offset: u64,
    pub caught_up_ms: u64,
}

/// An acks=all produce that waits for the HWM; `ticket` names whoever waits.
#[derive(Clone, Copy)]
pub struct Pending {
    pub last_offset: u64,
    pub base_offset: u64,
    pub count: u32,
    pub ticket: u64,
}

pub struct ReplState {
    pub epoch: u64,
    pub is_leader: bool,
    pub isr: Vec<u32>,
    pub replicas: Vec<u32>,
    pub match_offsets: HashMap<u32, Progress>,
    pub pending_all: Vec<Pending>,
    /// Bumped on every role/epoch change; running fetchers exit when stale.
    pub fetcher_generation: u64,
    pub fetcher_alive: bool,
    /// When this broker became leader — the lag clock for followers that
    /// have not fetched yet.
    pub leader_since_ms: u64,
    pub high_watermark: u64,
}

pub ghost struct ReplView {
    pub epoch: u64,
    pub is_leader: bool,
    pub isr: Seq<u32>,
    pub replicas: Seq<u32>,
    pub progress: Map<u32, Progress>,
    pub pending: Seq<Pending>,
    pub generation: u64,
    pub alive: bool,
    pub leader_since: u64,
    pub hwm: u64,
}

impl View for ReplState {
    type V = ReplView;

    open spec fn view(&self) -> ReplView {
        ReplView {
            epoch: self.epoch,
            is_leader: self.is_leader,
            isr: self.isr@,
            replicas: self.replicas@,
            progress: self.match_offsets@,
            pending: self.pending_all@,
            generation: self.fetcher_generation,
            alive: self.fetcher_alive,
            leader_since: self.leader_since_ms,
            hwm: self.high_watermark,
        }
    }
}

pub struct Replica {
    pub topic: String,
    pub partition: u32,
    pub state: ReplState,
}

/// The offset up to which a follower is known to have the log.
pub open spec fn matched(progress: Map<u32, Progress>, id: u32) -> u64 {
    if progress.contains_key(id) {
        progress[id].offset
    } else {
        0
    }
}

/// The least of the log end and what the followers among `isr` have.
pub open spec fn replicated(
    isr: Seq<u32>,
    progress: Map<u32, Progress>,
    self_id: u32,
    log_end: u64,
) -> u64
    decreases isr.len(),
{
    if isr.len() == 0 {
        log_end
    } else {
        let head = replicated(isr.drop_last(), progress, self_id, log_end);
        if isr.last() == self_id || matched(progress, isr.last()) >= head {
            head
        } else {
            matched(progress, isr.last())
        }
    }
}

/// The produces that a high-water mark covers.
pub open spec fn covered(ps: Seq<Pending>, hwm: u64) -> Seq<Pending>
    decreases ps.len(),
{
    if ps.len() == 0 {
        Seq::empty()
    } else if ps.last().last_offset < hwm {
        covered(ps.drop_last(), hwm).push(ps.last())
    } else {
        covered(ps.drop_last(), hwm)
    }
}

/// The produces that a high-water mark does not cover.
pub open spec fn parked(ps: Seq<Pending>, hwm: u64) -> Seq<Pending>
    decreases ps.len(),
{
    if ps.len() == 0 {
        Seq::empty()
    } else if ps.last().last_offset < hwm {
        parked(ps.drop_last(), hwm)
    } else {
        parked(ps.drop_last(), hwm).push(ps.last())
    }
}

/// The high-water mark after a look at the followers' progress: it only
/// advances.
pub open spec fn next_hwm(v: ReplView, self_id: u32, log_end: u64) -> u64 {
    let low = replicated(v.isr, v.progress, self_id, log_end);
    if low > v.hwm {
        low
    } else {
        v.hwm
    }
}

/// A replica after a look at the followers' progress.
pub open spec fn advanced(v: ReplView, self_id: u32, log_end: u64) -> ReplView {
    if v.is_leader {
        let hwm = next_hwm(v, self_id, log_end);
        ReplView { hwm, pending: parked(v.pending, hwm), ..v }
    } else {
        v
    }
}

impl ReplState {
    pub fn new(now_ms: u64) -> (r: ReplState)
        ensures
            r@ == (ReplView {
                epoch: 0,
                is_leader: false,
                isr: Seq::empty(),
                replicas: Seq::empty(),
                progress: Map::empty(),
                pending: Seq::empty(),
                generation: 0,
                alive: false,
                leader_since: now_ms,
                hwm: 0,
            }),
    {
        broadcast use group_hash_axioms;

        ReplState {
            epoch: 0,
            is_leader: false,
            isr: Vec::new(),
            replicas: Vec::new(),
            match_offsets: HashMap::new(),
            pending_all: Vec::new(),
            fetcher_generation: 0,
            fetcher_alive: false,
            leader_since_ms: now_ms,
            high_watermark: 0,
        }
    }

    fn matched(&self, id: u32) -> (r: u64)
        ensures
            r == matched(self@.progress, id),
    {
        broadcast use group_hash_axioms;

        match self.match_offsets.get(&id) {
            Some(p) => p.offset,
            None => 0,
        }
    }

    /// Takes the pending produces that `hwm` covers out, in their order.
    pub fn drain_pending(&mut self, hwm: u64) -> (ready: Vec<Pending>)
        ensures
            ready@ == covered(old(self)@.pending, hwm),
            final(self)@ == (ReplView { pending: parked(old(self)@.pending, hwm), ..old(self)@ }),
    {
        let ghost all = self.pending_all@;
        let mut ready: Vec<Pending> = Vec::new();
        let mut keep: Vec<Pending> = Vec::new();
        let mut i: usize = 0;
        assert(all.take(0) =~= Seq::empty());
        while i < self.pending_all.len()
            invariant
                i <= self.pending_all@.len(),
                all == self.pending_all@,
                self@ == old(self)@,
                ready@ == covered(all.take(i as int), hwm),
                keep@ == parked(all.take(i as int), hwm),
            decreases self.pending_all@.len() - i,
        {
            let p: Pending = self.pending_all[i];
            proof {
                assert(all.take(i + 1).drop_last() =~= all.take(i as int));
                assert(all.take(i + 1).last() == p);
            }
            if p.last_offset < hwm {
                ready.push(p);
            } else {
                keep.push(p);
            }
            i += 1;
        }
        assert(all.take(i as int) =~= all);
        self.pending_all = keep;
        ready
    }

    /// Recomputes the HWM (advance-only) and returns the acks=all produces that
    /// it covers. Called after leader appends, follower fetch progress, and
    /// ISR changes.
    pub fn advance_hwm(&mut self, self_id: u32, log_end: u64) -> (ready: Vec<Pending>)
        ensures
            final(self)@ == advanced(old(self)@, self_id, log_end),
            ready@ == (if old(self)@.is_leader {
                covered(old(self)@.pending, next_hwm(old(self)@, self_id, log_end))
            } else {
                Seq::empty()
            }),
    {
        if !self.is_leader {
            return Vec::new();
        }
        let mut low: u64 = log_end;
        let ghost isr = self.isr@;
        let mut i: usize = 0;
        assert(isr.take(0) =~= Seq::empty());
        while i < self.isr.len()
            invariant
                i <= self.isr@.len(),
                isr == self.isr@,
                self@ == old(self)@,
                low == replicated(isr.take(i as int), self@.progress, self_id, log_end),
            decreases self.isr@.len() - i,
        {
            let id: u32 = self.isr[i];
            proof {
                assert(isr.take(i + 1).drop_last() =~= isr.take(i as int));
                assert(isr.take(i + 1).last() == id);
            }
            if id != self_id {
                let have: u64 = self.matched(id);
                if have < low {
                    low = have;
                }
            }
            i += 1;
        }
        assert(isr.take(i as int) =~= isr);
        if low > self.high_watermark {
            self.high_watermark = low;
        }
        let hwm: u64 = self.high_watermark;
        self.drain_pending(hwm)
    }
}

/// Why a produce is refused, if it is.
pub open spec fn produce_refusal(
    v: ReplView,
    acks: Acks,
    leader_epoch: u64,
    min_isr: u32,
) -> Option<ErrorCode> {
    if !v.is_leader {
        Some(ErrorCode::NotLeader)
    } else if leader_epoch != 0 && leader_epoch != v.epoch {
        Some(ErrorCode::FencedEpoch)
    } else if acks == Acks::All && v.isr.len() < min_isr {
        Some(ErrorCode::NotEnoughReplicas)
    } else {
        None
    }
}

/// How a follower's fetch is judged: only the leader of its epoch answers.
pub open spec fn fetch_refusal(v: ReplView, leader_epoch: u64) -> Option<ErrorCode> {
    if !v.is_leader {
        Some(ErrorCode::NotLeader)
    } else if leader_epoch != v.epoch {
        Some(ErrorCode::FencedEpoch)
    } else {
        None
    }
}

/// When a follower was last caught up, as far as the leader knows.
pub open spec fn last_caught_up(v: ReplView, id: u32) -> u64 {
    if v.progress.contains_key(id) {
        v.progress[id].caught_up_ms
    } else {
        v.leader_since
    }
}

/// A leader's state after a follower fetched at `offset`. A fetch proves that
/// the follower has everything before it; the caught-up clock only advances
/// when the fetch reaches the log end.
pub open spec fn fetched(v: ReplView, id: u32, offset: u64, log_end: u64, now_ms: u64) -> ReplView {
    let caught_up_ms = if offset >= log_end {
        now_ms
    } else {
        last_caught_up(v, id)
    };
    ReplView { progress: v.progress.insert(id, Progress { offset, caught_up_ms }), ..v }
}

/// The followers among `ids` that were caught up within the lag window.
pub open spec fn in_sync(
    v: ReplView,
    ids: Seq<u32>,
    self_id: u32,
    now_ms: u64,
    lag_ms: u64,
) -> Seq<u32>
    decreases ids.len(),
{
    if ids.len() == 0 {
        Seq::empty()
    } else {
        let head = in_sync(v, ids.drop_last(), self_id, now_ms, lag_ms);
        if ids.last() != self_id && now_ms - last_caught_up(v, ids.last()) <= lag_ms {
            head.push(ids.last())
        } else {
            head
        }
    }
}

/// The ISR that a leader wants: itself and the followers that keep up.
pub open spec fn wanted_isr(v: ReplView, self_id: u32, now_ms: u64, lag_ms: u64) -> Seq<u32> {
    sorted_ids(seq![self_id] + in_sync(v, v.replicas, self_id, now_ms, lag_ms))
}

impl ReplState {
    /// Whether a produce may go ahead; the error it is answered with if not.
    pub fn produce_check(&self, acks: Acks, leader_epoch: u64, min_insync_replicas: u32) -> (r:
        Option<ErrorCode>)
        ensures
            r == produce_refusal(self@, acks, leader_epoch, min_insync_replicas),
            r is None <==> self@.is_leader && (leader_epoch == 0 || leader_epoch == self@.epoch) && (acks
                == Acks::All ==> self@.isr.len() >= min_insync_replicas),
    {
        if !self.is_leader {
            Some(ErrorCode::NotLeader)
        } else if leader_epoch != 0 && leader_epoch != self.epoch {
            Some(ErrorCode::FencedEpoch)
        } else if acks == Acks::All && (self.isr.len() as u64)
            < min_insync_replicas as u64 {
            Some(ErrorCode::NotEnoughReplicas)
        } else {
            None
        }
    }

    /// Parks an acks=all produce of `count` records from `base_offset` on until
    /// the HWM covers it.
    pub fn park(&mut self, base_offset: u64, count: u32, ticket: u64)
        requires
            count > 0,
            base_offset + count <= u64::MAX,
        ensures
            final(self)@ == (ReplView {
                pending: old(self)@.pending.push(
                    Pending {
                        last_offset: (base_offset + count - 1) as u64,
                        base_offset,
                        count,
                        ticket,
                    },
                ),
                ..old(self)@
            }),
            ({
                let p = final(self)@.pending.last();
                &&& p.ticket == ticket
                &&& p.base_offset == base_offset
                &&& p.last_offset + 1 == base_offset + count
                &&& final(self)@.pending.drop_last() == old(self)@.pending
            }),
    {
        let last_offset: u64 = base_offset + (count as u64 - 1);
        self.pending_all.push(Pending { last_offset, base_offset, count, ticket });
    }

    /// Takes in a follower's fetch, or says why it is refused.
    pub fn follower_fetch(
        &mut self,
        follower_id: u32,
        leader_epoch: u64,
        offset: u64,
        log_end: u64,
        now_ms: u64,
    ) -> (r: Option<ErrorCode>)
        ensures
            r == fetch_refusal(old(self)@, leader_epoch),
            final(self)@ == (if r is None {
                fetched(old(self)@, follower_id, offset, log_end, now_ms)
            } else {
                old(self)@
            }),
            r is None <==> old(self)@.is_leader && leader_epoch == old(self)@.epoch,
            r is None ==> final(self)@.progress.contains_key(follower_id)
                && final(self)@.progress[follower_id].offset == offset,
    {
        broadcast use group_hash_axioms;

        if !self.is_leader {
            return Some(ErrorCode::NotLeader);
        }
        if leader_epoch != self.epoch {
            return Some(ErrorCode::FencedEpoch);
        }
        let caught_up_ms: u64 = if offset >= log_end {
            now_ms
        } else {
            self.last_caught_up(follower_id)
        };
        self.match_offsets.insert(follower_id, Progress { offset, caught_up_ms });
        None
    }

    fn last_caught_up(&self, id: u32) -> (r: u64)
        ensures
            r == last_caught_up(self@, id),
    {
        broadcast use group_hash_axioms;

        match self.match_offsets.get(&id) {
            Some(p) => p.caught_up_ms,
            None => self.leader_since_ms,
        }
    }

    /// The ISR to propose to the controller, with the epoch to propose it in.
    /// One rule for shrink AND expand: in the ISR iff caught up within the lag
    /// window. A follower that never fetched gets the window measured from when
    /// this leader took over.
    pub fn isr_proposal(&self, self_id: u32, now_ms: u64, lag_ms: u64) -> (r: Option<
        (u64, Vec<u32>),
    >)
        ensures
            ({
                let wanted = wanted_isr(self@, self_id, now_ms, lag_ms);
                if !self@.is_leader || wanted == sorted_ids(self@.isr) {
                    r is None
                } else {
                    r matches Some(x) && x.0 == self@.epoch && x.1@ == wanted
                }
            }),
            r matches Some(x) ==> self@.is_leader && x.0 == self@.epoch,
    {
        if !self.is_leader {
            return None;
        }
        let mut desired: Vec<u32> = Vec::new();
        desired.push(self_id);
        let ghost ids = self.replicas@;
        let mut i: usize = 0;
        assert(ids.take(0) =~= Seq::empty());
        assert(desired@ =~= seq![self_id] + in_sync(
            self@,
            ids.take(0),
            self_id,
            now_ms,
            lag_ms,
        ));
        while i < self.replicas.len()
            invariant
                i <= self.replicas@.len(),
                ids == self.replicas@,
                desired@ == seq![self_id] + in_sync(
                    self@,
                    ids.take(i as int),
                    self_id,
                    now_ms,
                    lag_ms,
                ),
            decreases self.replicas@.len() - i,
        {
            let id: u32 = self.replicas[i];
            proof {
                assert(ids.take(i + 1).drop_last() =~= ids.take(i as int));
                assert(ids.take(i + 1).last() == id);
            }
            let last: u64 = self.last_caught_up(id);
            if id != self_id && (now_ms <= last || now_ms - last <= lag_ms) {
                desired.push(id);
                assert(desired@ =~= seq![self_id] + in_sync(
                    self@,
                    ids.take(i + 1),
                    self_id,
                    now_ms,
                    lag_ms,
                ));
            }
            i += 1;
        }
        assert(ids.take(i as int) =~= ids);
        let wanted: Vec<u32> = sort_ids(&desired);
        let current: Vec<u32> = sort_ids(&self.isr);
        if same_ids(&wanted, &current) {
            None
        } else {
            Some((self.epoch, wanted))
        }
    }

    /// Takes in an ISR that the controller accepted, unless this broker no
    /// longer leads in that epoch.
    pub fn accept_isr(&mut self, epoch: u64, isr: Vec<u32>)
        ensures
            final(self)@ == (if old(self)@.is_leader && old(self)@.epoch == epoch {
                ReplView { isr: isr@, ..old(self)@ }
            } else {
                old(self)@
            }),
            old(self)@.is_leader && old(self)@.epoch == epoch ==> final(self)@.isr == isr@,
            !(old(self)@.is_leader && old(self)@.epoch == epoch) ==> final(self)@ == old(self)@,
    {
        if self.is_leader && self.epoch == epoch {
            self.isr = isr;
        }
    }

    /// Ends every role: a running fetcher dies, and the parked produces, which
    /// are returned, fail.
    pub fn invalidate(&mut self) -> (failed: Vec<Pending>)
        requires
            old(self)@.generation < u64::MAX,
        ensures
            failed@ == old(self)@.pending,
            final(self)@ == (ReplView {
                generation: (old(self)@.generation + 1) as u64,
                alive: false,
                is_leader: false,
                pending: Seq::empty(),
                ..old(self)@
            }),
            !final(self)@.is_leader && !final(self)@.alive && final(self)@.pending.len() == 0,
            failed@ == old(self)@.pending,
    {
        self.fetcher_generation = self.fetcher_generation + 1;
        self.fetcher_alive = false;
        self.is_leader = false;
        let mut failed: Vec<Pending> = Vec::new();
        core::mem::swap(&mut failed, &mut self.pending_all);
        failed
    }
}

/// What a broker does when metadata assigns it a role.
#[derive(Clone, Copy, PartialEq, Eq, Structural)]
pub enum RoleAction {
    /// The role is what it was: look at the high-water mark.
    Keep,
    /// Lead: note the epoch in the log's history, look at the high-water mark.
    Lead,
    /// Follow: start a fetcher of this generation.
    Follow { generation: u64 },
    /// There is no leader to follow.
    Wait,
}

/// Whether metadata makes broker `self_id` the leader.
pub open spec fn leads(p: PartitionMeta, self_id: u32) -> bool {
    p.leader == as_leader(self_id)
}

/// Whether metadata leaves a replica in its role.
pub open spec fn role_unchanged(v: ReplView, p: PartitionMeta, self_id: u32) -> bool {
    v.epoch == p.leader_epoch && v.is_leader == leads(p, self_id)
}

/// What a broker does when metadata speaks of a partition that it hosts.
pub open spec fn role_action(v: ReplView, p: PartitionMeta, self_id: u32) -> RoleAction {
    let follow = RoleAction::Follow { generation: (v.generation + 1) as u64 };
    if role_unchanged(v, p, self_id) {
        if !v.is_leader && !v.alive && p.leader >= 0 {
            follow
        } else {
            RoleAction::Keep
        }
    } else if leads(p, self_id) {
        RoleAction::Lead
    } else if p.leader >= 0 {
        follow
    } else {
        RoleAction::Wait
    }
}

/// A replica after metadata spoke of its partition.
pub open spec fn role_applied(v: ReplView, p: PartitionMeta, self_id: u32, now_ms: u64) -> ReplView {
    if role_unchanged(v, p, self_id) {
        let w = ReplView { isr: p.isr@, ..v };
        if !v.is_leader && !v.alive && p.leader >= 0 {
            ReplView { generation: (v.generation + 1) as u64, alive: true, ..w }
        } else {
            w
        }
    } else {
        let w = ReplView {
            epoch: p.leader_epoch,
            replicas: p.replicas@,
            isr: p.isr@,
            is_leader: leads(p, self_id),
            generation: (v.generation + 1) as u64,
            ..v
        };
        if leads(p, self_id) {
            ReplView { progress: Map::empty(), leader_since: now_ms, alive: false, ..w }
        } else {
            ReplView { pending: Seq::empty(), alive: p.leader >= 0, ..w }
        }
    }
}

/// What a role change calls for, and the parked produces that fail by it.
pub struct RoleChange {
    pub action: RoleAction,
    pub failed: Vec<Pending>,
}

impl ReplState {
    /// Takes in what metadata says of a partition that this broker hosts.
    pub fn apply_role(&mut self, p: &PartitionMeta, self_id: u32, now_ms: u64) -> (r: RoleChange)
        requires
            old(self)@.generation < u64::MAX,
        ensures
            final(self)@ == role_applied(old(self)@, *p, self_id, now_ms),
            r.action == role_action(old(self)@, *p, self_id),
            r.failed@ == (if role_unchanged(old(self)@, *p, self_id) || leads(*p, self_id) {
                Seq::empty()
            } else {
                old(self)@.pending
            }),
            final(self)@.is_leader == (p.leader == as_leader(self_id)),
            old(self)@.is_leader && !final(self)@.is_leader ==> r.failed@ == old(self)@.pending,
    {
        broadcast use group_hash_axioms;

        let becoming_leader: bool = p.leader == from_bits32(self_id);
        let next: u64 = self.fetcher_generation + 1;
        if self.epoch == p.leader_epoch && self.is_leader == becoming_leader {
            self.isr = copy_ids(&p.isr);
            // A follower whose fetcher died (leader connection lost) needs a
            // respawn even without a role change.
            if !self.is_leader && !self.fetcher_alive && p.leader >= 0 {
                self.fetcher_generation = next;
                self.fetcher_alive = true;
                return RoleChange {
                    action: RoleAction::Follow { generation: next },
                    failed: Vec::new(),
                };
            }
            return RoleChange { action: RoleAction::Keep, failed: Vec::new() };
        }
        self.epoch = p.leader_epoch;
        self.replicas = copy_ids(&p.replicas);
        self.isr = copy_ids(&p.isr);
        self.is_leader = becoming_leader;
        self.fetcher_generation = next;
        let mut failed: Vec<Pending> = Vec::new();
        if becoming_leader {
            self.match_offsets.clear();
            self.leader_since_ms = now_ms;
            self.fetcher_alive = false;
            return RoleChange { action: RoleAction::Lead, failed };
        }
        core::mem::swap(&mut failed, &mut self.pending_all);
        self.fetcher_alive = p.leader >= 0;
        if p.leader >= 0 {
            RoleChange { action: RoleAction::Follow { generation: next }, failed }
        } else {
            RoleChange { action: RoleAction::Wait, failed }
        }
    }

    /// Whether the fetcher of that generation still speaks for the replica.
    pub fn is_current(&self, generation: u64) -> (r: bool)
        ensures
            r == (!self@.is_leader && self@.generation == generation),
    {
        !self.is_leader && self.fetcher_generation == generation
    }

    /// The fetcher of that generation has ended.
    pub fn fetcher_ended(&mut self, generation: u64)
        ensures
            final(self)@ == (if old(self)@.generation == generation {
                ReplView { alive: false, ..old(self)@ }
            } else {
                old(self)@
            }),
    {
        if self.fetcher_generation == generation {
            self.fetcher_alive = false;
        }
    }
}

/// A record as it travels between brokers.
pub open spec fn as_fetched(r: FetchedRecord) -> RecordView {
    RecordView {
        offset: r.offset,
        timestamp_ms: r.timestamp_ms,
        key: opt_view(r.key),
        value: r.value@,
    }
}

pub open spec fn fetched_views(v: Seq<FetchedRecord>) -> Seq<RecordView> {
    v.map_values(|r: FetchedRecord| as_fetched(r))
}

/// The records of a response.
pub fn to_fetched(records: Vec<Record>) -> (r: Vec<FetchedRecord>)
    ensures
        fetched_views(r@) == record_views(records@),
{
    let ghost all = record_views(records@);
    let mut r: Vec<FetchedRecord> = Vec::new();
    for x in it: records
        invariant
            it.seq() == records@,
            all == record_views(records@),
            fetched_views(r@) == all.take(it.index()),
    {
        let ghost before = fetched_views(r@);
        r.push(
            FetchedRecord {
                offset: x.offset,
                timestamp_ms: x.timestamp_ms,
                key: x.key,
                value: x.value,
            },
        );
        assert(fetched_views(r@) =~= before.push(x@));
        assert(all.take(it.index() + 1) =~= all.take(it.index()).push(x@));
    }
    assert(all.take(all.len() as int) =~= all);
    r
}

/// The records in a response.
pub fn from_fetched(records: Vec<FetchedRecord>) -> (r: Vec<Record>)
    ensures
        record_views(r@) == fetched_views(records@),
{
    let ghost all = fetched_views(records@);
    let mut r: Vec<Record> = Vec::new();
    for x in it: records
        invariant
            it.seq() == records@,
            all == fetched_views(records@),
            record_views(r@) == all.take(it.index()),
    {
        let ghost before = record_views(r@);
        r.push(
            Record {
                offset: x.offset,
                timestamp_ms: x.timestamp_ms,
                key: x.key,
                value: x.value,
            },
        );
        assert(record_views(r@) =~= before.push(as_fetched(x)));
        assert(all.take(it.index() + 1) =~= all.take(it.index()).push(as_fetched(x)));
    }
    assert(all.take(all.len() as int) =~= all);
    r
}

/// What a follower asks first: where did my last epoch end on the leader?
pub fn epoch_check_request(topic: &str, partition: u32, epoch: u64) -> (r: Request)
    ensures
        r matches Request::EpochCheck { topic: t, partition: p, epoch: e } && t@ == topic@ && p
            == partition && e == epoch,
{
    Request::EpochCheck { topic: topic.to_owned(), partition, epoch }
}

/// How much a follower asks for at once.
pub const FETCH_MAX_BYTES: u32 = 1_048_576;

/// How long a follower's fetch may wait for records.
pub const FETCH_MAX_WAIT_MS: u32 = 250;

/// What a follower asks for: the records from its own log end on.
pub fn replica_fetch_request(
    topic: &str,
    partition: u32,
    self_id: u32,
    epoch: u64,
    log_end: u64,
) -> (r: Request)
    ensures
        r matches Request::ReplicaFetch {
            topic: t,
            partition: p,
            follower_id,
            leader_epoch,
            offset,
            max_bytes,
            max_wait_ms,
        } && t@ == topic@ && p == partition && follower_id == self_id && leader_epoch == epoch
            && offset == log_end && max_bytes == FETCH_MAX_BYTES && max_wait_ms
            == FETCH_MAX_WAIT_MS,
{
    Request::ReplicaFetch {
        topic: topic.to_owned(),
        partition,
        follower_id: self_id,
        leader_epoch: epoch,
        offset: log_end,
        max_bytes: FETCH_MAX_BYTES,
        max_wait_ms: FETCH_MAX_WAIT_MS,
    }
}

/// What a fetcher does next.
pub enum FetchStep {
    /// End: it no longer speaks for the replica, or has nothing to work with.
    Stop,
    /// End, and have the metadata refreshed: this broker's view is stale.
    Refresh,
    /// Cut the log to this end, then fetch.
    Truncate { to: u64 },
    /// Note a newer epoch of the leader's, if there is one; append the records;
    /// fetch on.
    Append { epoch: Option<u64>, records: Vec<Record> },
    /// Fetch.
    Fetch,
}

/// What a fetcher does with the answer to its epoch check: it cuts off what the
/// leader's log does not have, before it fetches.
pub open spec fn reconciled(
    reply: std::result::Result<Response, ClientError>,
    current: bool,
    local_end: u64,
    step: FetchStep,
) -> bool {
    match reply {
        Ok(Response::EpochCheck { error, end_offset }) => if error != ErrorCode::NoError {
            step is Refresh
        } else if !current {
            step is Stop
        } else if end_offset < local_end {
            step == (FetchStep::Truncate { to: end_offset })
        } else {
            step is Fetch
        },
        _ => step is Refresh,
    }
}

/// Decides on the answer to an epoch check. `current` was asked after the
/// answer came: a role or epoch change while the reply was in flight means that
/// the fetcher no longer speaks for the replica — truncating then would mutate
/// a log it doesn't own anymore.
pub fn reconcile(
    reply: std::result::Result<Response, ClientError>,
    current: bool,
    local_end: u64,
) -> (step: FetchStep)
    ensures
        reconciled(reply, current, local_end, step),
{
    match reply {
        Ok(Response::EpochCheck { error, end_offset }) => {
            if error != ErrorCode::NoError {
                FetchStep::Refresh
            } else if !current {
                FetchStep::Stop
            } else if end_offset < local_end {
                FetchStep::Truncate { to: end_offset }
            } else {
                FetchStep::Fetch
            }
        },
        _ => FetchStep::Refresh,
    }
}

/// What a fetcher does with the answer to a fetch.
pub open spec fn pulled(
    reply: std::result::Result<Response, ClientError>,
    current: bool,
    local_epoch: u64,
    step: FetchStep,
) -> bool {
    match reply {
        Ok(Response::ReplicaFetch { error, leader_epoch, records, .. }) => if error
            != ErrorCode::NoError {
            step is Refresh
        } else if !current {
            step is Stop
        } else {
            step matches FetchStep::Append { epoch, records: taken } && epoch == (if leader_epoch
                > local_epoch {
                Some(leader_epoch)
            } else {
                None
            }) && record_views(taken@) == fetched_views(records@)
        },
        Ok(_) => step is Stop,
        Err(ClientError::Closed) => step is Refresh,
        Err(ClientError::Io(_)) => step is Refresh,
        Err(_) => step is Stop,
    }
}

/// Decides on the answer to a fetch. `current` was asked after the answer came:
/// appending stale records into a new epoch's log is exactly the divergence
/// this machinery exists to prevent.
pub fn pull(
    reply: std::result::Result<Response, ClientError>,
    current: bool,
    local_epoch: u64,
) -> (step: FetchStep)
    ensures
        pulled(reply, current, local_epoch, step),
{
    match reply {
        Ok(Response::ReplicaFetch { error, leader_epoch, records, .. }) => {
            if error != ErrorCode::NoError {
                // NotLeader / FencedEpoch / anything else: our view is stale.
                FetchStep::Refresh
            } else if !current {
                FetchStep::Stop
            } else {
                let epoch: Option<u64> = if leader_epoch > local_epoch {
                    Some(leader_epoch)
                } else {
                    None
                };
                FetchStep::Append { epoch, records: from_fetched(records) }
            }
        },
        Ok(_) => FetchStep::Stop,
        Err(ClientError::Closed) => FetchStep::Refresh,
        Err(ClientError::Io(_)) => FetchStep::Refresh,
        Err(_) => FetchStep::Stop,
    }
}

} // verus!
