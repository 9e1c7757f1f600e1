//! Failover decomposition and the per-second ack timeline.
//!
//! A failover gap is what a client lives through between a fault and its next
//! successful ack. Splitting it needs two clocks that the harness owns, not
//! the target: a **leader watch** that polls the metadata API every 20 ms and
//! records every leader change it sees (t1 = first time a partition's leader
//! is someone other than the victim), and an **ack clock** the producers stamp
//! on every successful produce (t2 = first ack after the fault). Both are
//! client-side observations, so `t1 − t0` (detection + election, as visible)
//! and `t2 − t1` (client recovery: refresh, reconnect, retry backoff) mean the
//! same thing for every target.

use super::cluster::{carries, majority};
use crate::order::{sort_numbers, sorted_numbers};
use crate::text::{decimal, padded, push_decimal, push_padded, push_signed, signed_decimal};
use vstd::prelude::*;
use vstd::string::*;

verus! {

/// A leader change, seen `at_ns` nanoseconds into the run.
#[derive(Clone, Copy, Debug)]
pub struct LeaderChange {
    pub at_ns: u64,
    pub partition: u32,
    pub old_leader: i32,
    pub new_leader: i32,
}

/// What the leader watch has seen.
pub struct LeaderWatch {
    current: Vec<i32>,
    changes: Vec<LeaderChange>,
    /// Most recent per-broker answers (None = did not answer).
    latest_views: Vec<Option<Vec<i32>>>,
}

pub ghost struct Watched {
    pub current: Seq<i32>,
    pub changes: Seq<LeaderChange>,
    pub views: Seq<Option<Seq<i32>>>,
}

pub open spec fn view_of(v: Option<Vec<i32>>) -> Option<Seq<i32>> {
    match v {
        Some(x) => Some(x@),
        None => None,
    }
}

pub open spec fn answer_views(v: Seq<Option<Vec<i32>>>) -> Seq<Option<Seq<i32>>> {
    v.map_values(|x: Option<Vec<i32>>| view_of(x))
}

impl View for LeaderWatch {
    type V = Watched;

    closed spec fn view(&self) -> Watched {
        Watched {
            current: self.current@,
            changes: self.changes@,
            views: answer_views(self.latest_views@),
        }
    }
}

/// The changes from one set of leaders to the next, for the first `n`
/// partitions.
pub open spec fn changes_between(before: Seq<i32>, after: Seq<i32>, n: int, at_ns: u64) -> Seq<
    LeaderChange,
>
    decreases n,
{
    if n <= 0 {
        Seq::empty()
    } else {
        let head = changes_between(before, after, n - 1, at_ns);
        if before[n - 1] != after[n - 1] {
            head.push(
                LeaderChange {
                    at_ns,
                    partition: (n - 1) as u32,
                    old_leader: before[n - 1],
                    new_leader: after[n - 1],
                },
            )
        } else {
            head
        }
    }
}

/// Whether a change is the one looked for: a live leader of the partition that
/// is not the victim, seen at or after `t0_ns`.
pub open spec fn is_takeover(c: LeaderChange, t0_ns: u64, partition: u32, victim: usize) -> bool {
    c.at_ns >= t0_ns && c.partition == partition && c.new_leader >= 0 && c.new_leader as int
        != victim
}

/// The first takeover from `i` on.
pub open spec fn takeover_from(
    cs: Seq<LeaderChange>,
    i: int,
    t0_ns: u64,
    partition: u32,
    victim: usize,
) -> Option<LeaderChange>
    decreases cs.len() - i,
{
    if i < 0 || i >= cs.len() {
        None
    } else if is_takeover(cs[i], t0_ns, partition, victim) {
        Some(cs[i])
    } else {
        takeover_from(cs, i + 1, t0_ns, partition, victim)
    }
}

impl LeaderWatch {
    /// A watch that has seen no leader yet.
    pub fn new(partitions: u32) -> (r: LeaderWatch)
        ensures
            r@.current == Seq::new(partitions as nat, |i: int| -1i32),
            r@.changes.len() == 0,
            r@.views.len() == 0,
    {
        let mut current: Vec<i32> = Vec::new();
        let mut i: u32 = 0;
        while i < partitions
            invariant
                i <= partitions,
                current@ == Seq::new(i as nat, |i: int| -1i32),
            decreases partitions - i,
        {
            current.push(-1);
            assert(current@ =~= Seq::new((i + 1) as nat, |i: int| -1i32));
            i += 1;
        }
        LeaderWatch { current, changes: Vec::new(), latest_views: Vec::new() }
    }

    /// Takes in what the brokers said at `now_ns`: the leaders are those that a
    /// majority of them names.
    pub fn observe(&mut self, views: Vec<Option<Vec<i32>>>, now_ns: u64)
        requires
            old(self)@.current.len() <= u32::MAX,
        ensures
            final(self)@.current.len() == old(self)@.current.len(),
            forall|p: int|
                0 <= p < final(self)@.current.len() ==> {
                    &&& #[trigger] final(self)@.current[p] == -1 ==> forall|l: i32|
                        !carries(views@, p, l)
                    &&& final(self)@.current[p] != -1 ==> carries(
                        views@,
                        p,
                        final(self)@.current[p],
                    )
                },
            final(self)@.changes == old(self)@.changes + changes_between(
                old(self)@.current,
                final(self)@.current,
                old(self)@.current.len() as int,
                now_ns,
            ),
            final(self)@.views == answer_views(views@),
    {
        let n: u32 = self.current.len() as u32;
        let leaders: Vec<i32> = majority(&views, n);
        let ghost before = self.current@;
        let ghost start = self.changes@;
        let mut p: usize = 0;
        assert(self.changes@ =~= start + changes_between(before, leaders@, 0, now_ns));
        while p < leaders.len()
            invariant
                p <= leaders@.len(),
                leaders@.len() == before.len(),
                before.len() <= u32::MAX,
                self.current@.len() == before.len(),
                forall|q: int|
                    0 <= q < before.len() ==> #[trigger] self.current@[q] == (if q < p {
                        leaders@[q]
                    } else {
                        before[q]
                    }),
                self.changes@ == start + changes_between(before, leaders@, p as int, now_ns),
            decreases leaders@.len() - p,
        {
            let was: i32 = self.current[p];
            let is: i32 = leaders[p];
            if is != was {
                self.changes.push(
                    LeaderChange {
                        at_ns: now_ns,
                        partition: p as u32,
                        old_leader: was,
                        new_leader: is,
                    },
                );
                self.current[p] = is;
            }
            assert(self.changes@ =~= start + changes_between(before, leaders@, p + 1, now_ns));
            p += 1;
        }
        assert(self.current@ =~= leaders@);
        self.latest_views = views;
    }

    pub fn current(&self) -> (r: Vec<i32>)
        ensures
            r@ == self@.current,
    {
        let mut r: Vec<i32> = Vec::new();
        r.extend_from_slice(self.current.as_slice());
        assert(r@ =~= self.current@);
        r
    }

    /// Latest per-broker opinions, for spotting a zombie that still claims
    /// leadership after the majority moved on.
    pub fn latest_views(&self) -> (r: &Vec<Option<Vec<i32>>>)
        ensures
            answer_views(r@) == self@.views,
    {
        &self.latest_views
    }

    /// First observation at or after `t0_ns` of a live leader for `partition`
    /// that is not `victim`.
    pub fn first_new_leader_after(&self, t0_ns: u64, partition: u32, victim: usize) -> (r: Option<
        LeaderChange,
    >)
        ensures
            r == takeover_from(self@.changes, 0, t0_ns, partition, victim),
    {
        let mut i: usize = 0;
        while i < self.changes.len()
            invariant
                i <= self.changes@.len(),
                takeover_from(self.changes@, i as int, t0_ns, partition, victim) == takeover_from(
                    self.changes@,
                    0,
                    t0_ns,
                    partition,
                    victim,
                ),
            decreases self.changes@.len() - i,
        {
            let c: LeaderChange = self.changes[i];
            if c.at_ns >= t0_ns && c.partition == partition && c.new_leader >= 0
                && c.new_leader as u64 != victim as u64 {
                return Some(c);
            }
            i += 1;
        }
        None
    }

    pub fn changes(&self) -> (r: &Vec<LeaderChange>)
        ensures
            r@ == self@.changes,
    {
        &self.changes
    }
}

/// Per-partition "last successful ack" stamp and running count, in nanoseconds
/// into the run. Producers call `record`; the schedule polls `last_ack` to find
/// t2 after a fault.
pub struct AckClock {
    last_ack_ns: Vec<u64>,
    acked: Vec<u64>,
    /// Largest interval between consecutive acks since the last `reset_gap`.
    gap_max_ns: Vec<u64>,
}

pub ghost struct Acked {
    /// 0 where there was no ack yet.
    pub last: Seq<u64>,
    pub count: Seq<u64>,
    pub gap: Seq<u64>,
}

impl View for AckClock {
    type V = Acked;

    closed spec fn view(&self) -> Acked {
        Acked { last: self.last_ack_ns@, count: self.acked@, gap: self.gap_max_ns@ }
    }
}

pub open spec fn larger(a: u64, b: u64) -> u64 {
    if a > b {
        a
    } else {
        b
    }
}

/// The time from one stamp to another; none where the other is earlier.
pub open spec fn since(now: u64, last: u64) -> u64 {
    if now > last {
        (now - last) as u64
    } else {
        0
    }
}

/// A clock after an ack of `n` records. A stamp is never 0, which stands for
/// none.
pub open spec fn recorded(s: Acked, p: int, n: u64, now_ns: u64) -> Acked {
    let ns = larger(now_ns, 1);
    Acked {
        last: s.last.update(p, ns),
        count: s.count.update(p, s.count[p].wrapping_add(n)),
        gap: if s.last[p] > 0 {
            s.gap.update(p, larger(s.gap[p], since(ns, s.last[p])))
        } else {
            s.gap
        },
    }
}

/// The largest interval without an ack since the last reset, including one that
/// is still open.
pub open spec fn largest_gap(s: Acked, p: int, now_ns: u64) -> u64 {
    larger(
        s.gap[p],
        if s.last[p] == 0 {
            0
        } else {
            since(now_ns, s.last[p])
        },
    )
}

fn max(a: u64, b: u64) -> (r: u64)
    ensures
        r == larger(a, b),
{
    if a > b {
        a
    } else {
        b
    }
}

fn zeros(n: u32) -> (r: Vec<u64>)
    ensures
        r@ == Seq::new(n as nat, |i: int| 0u64),
{
    let mut r: Vec<u64> = Vec::new();
    let mut i: u32 = 0;
    while i < n
        invariant
            i <= n,
            r@ == Seq::new(i as nat, |i: int| 0u64),
        decreases n - i,
    {
        r.push(0);
        assert(r@ =~= Seq::new((i + 1) as nat, |i: int| 0u64));
        i += 1;
    }
    r
}

impl AckClock {
    pub open spec fn ok(self) -> bool {
        &&& self@.last.len() == self@.count.len()
        &&& self@.gap.len() == self@.count.len()
        &&& self@.count.len() <= u32::MAX
    }

    pub fn new(partitions: u32) -> (r: AckClock)
        ensures
            r.ok(),
            r@.last == Seq::new(partitions as nat, |i: int| 0u64),
            r@.count == Seq::new(partitions as nat, |i: int| 0u64),
            r@.gap == Seq::new(partitions as nat, |i: int| 0u64),
    {
        AckClock {
            last_ack_ns: zeros(partitions),
            acked: zeros(partitions),
            gap_max_ns: zeros(partitions),
        }
    }

    /// Stamps an ack of `n` records, `now_ns` into the run.
    pub fn record(&mut self, partition: u32, n: u64, now_ns: u64)
        requires
            old(self).ok(),
            partition < old(self)@.count.len(),
        ensures
            final(self).ok(),
            final(self)@ == recorded(old(self)@, partition as int, n, now_ns),
    {
        let p: usize = partition as usize;
        let ns: u64 = max(now_ns, 1);
        let prev: u64 = self.last_ack_ns[p];
        self.last_ack_ns[p] = ns;
        if prev > 0 {
            let gap: u64 = if ns > prev {
                ns - prev
            } else {
                0
            };
            self.gap_max_ns[p] = max(self.gap_max_ns[p], gap);
        }
        self.acked[p] = self.acked[p].wrapping_add(n);
    }

    /// Start a fresh gap measurement (call right before a fault).
    pub fn reset_gap(&mut self, partition: u32)
        requires
            old(self).ok(),
            partition < old(self)@.count.len(),
        ensures
            final(self).ok(),
            final(self)@ == (Acked {
                gap: old(self)@.gap.update(partition as int, 0),
                ..old(self)@
            }),
    {
        self.gap_max_ns[partition as usize] = 0;
    }

    /// Largest ack-to-ack interval since the reset, including a gap that is
    /// still open right now (no ack since `last_ack`). This is the client's
    /// unavailability window, immune to a straggling in-flight ack landing
    /// just after the fault.
    pub fn max_gap(&self, partition: u32, now_ns: u64) -> (r: Option<u64>)
        requires
            self.ok(),
            partition < self@.count.len(),
        ensures
            ({
                let g = largest_gap(self@, partition as int, now_ns);
                r == if g > 0 {
                    Some(g)
                } else {
                    None
                }
            }),
    {
        let p: usize = partition as usize;
        let last: u64 = self.last_ack_ns[p];
        let open: u64 = if last == 0 || now_ns <= last {
            0
        } else {
            now_ns - last
        };
        let g: u64 = max(self.gap_max_ns[p], open);
        if g > 0 {
            Some(g)
        } else {
            None
        }
    }

    /// When the partition was last acked.
    pub fn last_ack(&self, partition: u32) -> (r: Option<u64>)
        requires
            self.ok(),
            partition < self@.count.len(),
        ensures
            r == (if self@.last[partition as int] == 0 {
                None
            } else {
                Some(self@.last[partition as int])
            }),
    {
        let ns: u64 = self.last_ack_ns[partition as usize];
        if ns == 0 {
            None
        } else {
            Some(ns)
        }
    }

    pub fn acked(&self, partition: u32) -> (r: u64)
        requires
            self.ok(),
            partition < self@.count.len(),
        ensures
            r == self@.count[partition as int],
    {
        self.acked[partition as usize]
    }

    pub fn partitions(&self) -> (r: u32)
        requires
            self.ok(),
        ensures
            r == self@.count.len(),
    {
        self.acked.len() as u32
    }

    /// The first ack after `t0_ns`, if there was one yet.
    pub fn acked_after(&self, partition: u32, t0_ns: u64) -> (r: Option<u64>)
        requires
            self.ok(),
            partition < self@.count.len(),
        ensures
            r == (if self@.last[partition as int] > t0_ns {
                Some(self@.last[partition as int])
            } else {
                None
            }),
    {
        match self.last_ack(partition) {
            Some(t) => if t > t0_ns {
                Some(t)
            } else {
                None
            },
            None => None,
        }
    }
}

/// An outage shows: the interval between an ack and the next is among those that
/// the largest gap covers, whatever came before and however long ago the next
/// was.
pub proof fn law_outage_shows(s: Acked, p: int, n: u64, t1: u64, t2: u64, now_ns: u64)
    requires
        0 <= p < s.last.len(),
        s.last.len() == s.count.len(),
        s.gap.len() == s.count.len(),
        0 < t1 <= t2,
    ensures
        largest_gap(recorded(recorded(s, p, n, t1), p, n, t2), p, now_ns) >= t2 - t1,
        largest_gap(recorded(s, p, n, t1), p, t2) >= t2 - t1,
{
}

/// One fault's client-visible consequences, per partition.
#[derive(Clone, Debug)]
pub struct FaultOutcome {
    pub fault: &'static str,
    pub victim: usize,
    /// Milliseconds into the run when the fault became effective (the docker
    /// command returned).
    pub t0_ms: u64,
    /// How long the fault command itself took; t0 is stamped after it.
    pub cli_ms: u64,
    pub heal_after_ms: u64,
    pub partition: u32,
    /// "leader" or "follower" — the victim's role for this partition at t0.
    pub role: &'static str,
    pub leader_moved_ms: Option<u64>,
    pub new_leader: i32,
    pub first_ack_ms: Option<u64>,
    /// Largest interval without acks inside the fault window (fault → acks
    /// resumed after heal, or budget). The client-visible outage.
    pub max_gap_ms: Option<u64>,
}

pub fn outcomes_csv_header() -> (r: &'static str)
    ensures
        r@
            == "fault,victim,t0_s,cli_ms,heal_after_ms,partition,role,leader_moved_ms,new_leader,first_ack_ms,max_gap_ms"@,
{
    "fault,victim,t0_s,cli_ms,heal_after_ms,partition,role,leader_moved_ms,new_leader,first_ack_ms,max_gap_ms"
}

/// A number, or nothing.
pub open spec fn opt_text(v: Option<u64>) -> Seq<char> {
    match v {
        Some(n) => decimal(n as nat),
        None => Seq::empty(),
    }
}

/// Nanoseconds to the nearest millisecond.
pub open spec fn nearest_ms(ns: u64) -> u64 {
    (ns / 1_000_000 + if ns % 1_000_000 >= 500_000 {
        1int
    } else {
        0
    }) as u64
}

/// Nanoseconds to the nearest millisecond.
pub fn to_nearest_ms(ns: u64) -> (r: u64)
    ensures
        r == nearest_ms(ns),
{
    ns / 1_000_000 + if ns % 1_000_000 >= 500_000 {
        1
    } else {
        0
    }
}

/// Milliseconds as seconds with three decimals.
pub open spec fn seconds_text(ms: u64) -> Seq<char> {
    decimal((ms / 1000) as nat) + "."@ + padded((ms % 1000) as nat, 3)
}

/// Appends milliseconds as seconds with three decimals.
pub fn push_seconds(out: &mut String, ms: u64)
    ensures
        final(out)@ == old(out)@ + seconds_text(ms),
{
    let ghost start = out@;
    push_decimal(out, ms / 1000);
    out.append(".");
    push_padded(out, ms % 1000, 3);
    assert(out@ =~= start + seconds_text(ms));
}

fn push_opt(out: &mut String, v: Option<u64>)
    ensures
        final(out)@ == old(out)@ + opt_text(v),
{
    match v {
        Some(n) => push_decimal(out, n),
        None => {
            assert(out@ =~= old(out)@ + opt_text(v));
        },
    }
}

/// An outcome's row.
pub open spec fn outcome_text(o: FaultOutcome) -> Seq<char> {
    o.fault@ + ","@ + decimal(o.victim as nat) + ","@ + seconds_text(o.t0_ms) + ","@ + decimal(
        o.cli_ms as nat,
    ) + ","@ + decimal(o.heal_after_ms as nat) + ","@ + decimal(o.partition as nat) + ","@
        + o.role@ + ","@ + opt_text(o.leader_moved_ms) + ","@ + signed_decimal(o.new_leader as int)
        + ","@ + opt_text(o.first_ack_ms) + ","@ + opt_text(o.max_gap_ms)
}

pub fn outcome_csv_row(o: &FaultOutcome) -> (r: String)
    ensures
        r@ == outcome_text(*o),
{
    let mut r: String = o.fault.to_owned();
    r.append(",");
    push_decimal(&mut r, o.victim as u64);
    r.append(",");
    push_seconds(&mut r, o.t0_ms);
    r.append(",");
    push_decimal(&mut r, o.cli_ms);
    r.append(",");
    push_decimal(&mut r, o.heal_after_ms);
    r.append(",");
    push_decimal(&mut r, o.partition as u64);
    r.append(",");
    r.append(o.role);
    r.append(",");
    push_opt(&mut r, o.leader_moved_ms);
    r.append(",");
    push_signed(&mut r, o.new_leader as i64);
    r.append(",");
    push_opt(&mut r, o.first_ack_ms);
    r.append(",");
    push_opt(&mut r, o.max_gap_ms);
    r
}

/// The place of the `tenths`-th tenth among `n` sorted numbers, rounded to the
/// nearest, upwards from the middle.
pub open spec fn rank_of(n: int, tenths: int) -> int {
    ((n - 1) * tenths + 5) / 10
}

/// Summary statistics over a list of gaps (ms): least, median, ninetieth
/// percentile, greatest, and how many there are.
pub fn percentiles(xs: &Vec<u64>) -> (r: Option<(u64, u64, u64, u64, usize)>)
    ensures
        ({
            let s = sorted_numbers(xs@);
            let n = s.len() as int;
            if xs@.len() == 0 {
                r is None
            } else {
                r == Some((s[0], s[rank_of(n, 5)], s[rank_of(n, 9)], s[n - 1], xs@.len() as usize))
            }
        }),
{
    if xs.len() == 0 {
        return None;
    }
    let s: Vec<u64> = sort_numbers(xs);
    proof {
        crate::order::lemma_sorted_len(xs@);
    }
    let n: usize = s.len();
    let last: u128 = (n - 1) as u128;
    let p50: usize = ((last * 5 + 5) / 10) as usize;
    let p90: usize = ((last * 9 + 5) / 10) as usize;
    Some((s[0], s[p50], s[p90], s[n - 1], n))
}

} // verus!
