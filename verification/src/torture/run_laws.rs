//! What the fault schedule draws and what a run measures.

use super::cluster::{carries, says, votes, Fault};
use super::docker::{apply_line, heal_line, Docker};
use super::failover::{
    changes_between, is_takeover, largest_gap, nearest_ms, rank_of, recorded, takeover_from, Acked,
    FaultOutcome, LeaderChange,
};
use super::preset::value_of_flag;
use super::probe::{behaves, budget_of, heard_claim, Findings};
use super::replog::{leaders_in, pairs_in};
use super::run::centis;
use super::schedule::{
    acked_in, delay_of, drawn, ms_between, silent_seconds, RunConfig, Strike, TimelineRow,
};
use super::summary::{counted, extra_of, faults_of, group_of, of_fault, roles_of, FaultCounts};
use crate::checker::Report;
use crate::codec::le_value;
use crate::harness::rng::{mix, state_after};
use crate::order::{distinct_texts, law_distinct_texts};
use crate::proto::{FetchedRecord, PartitionMeta};
use vstd::prelude::*;

verus! {

/// A strike hits one of the brokers with one of the faults asked for, and heals
/// after a time between the bounds.
pub proof fn law_strike(cfg: RunConfig, brokers: usize, state: u64, hit: Strike)
    requires
        brokers > 0,
        cfg.faults@.len() > 0,
        drawn(cfg, brokers, state, hit),
    ensures
        hit.victim < brokers,
        cfg.faults@.contains(hit.fault),
        cfg.min_heal_ms < cfg.max_heal_ms ==> cfg.min_heal_ms <= hit.heal_ms < cfg.max_heal_ms,
        cfg.min_heal_ms >= cfg.max_heal_ms ==> hit.heal_ms == cfg.min_heal_ms,
{
    let n: usize = cfg.faults.len();
    assert(cfg.faults@.len() == n);
}

/// A delay lies between its bounds.
pub proof fn law_delay(lo: u64, hi: u64, state: u64)
    ensures
        lo < hi ==> lo <= delay_of(lo, hi, state) < hi,
        lo >= hi ==> delay_of(lo, hi, state) == lo,
{
}

proof fn lemma_changes(before: Seq<i32>, after: Seq<i32>, n: int, at_ns: u64)
    requires
        0 <= n <= before.len(),
        before.len() == after.len(),
        n <= u32::MAX,
    ensures
        ({
            let cs = changes_between(before, after, n, at_ns);
            &&& forall|p: int|
                0 <= p < n && #[trigger] before[p] != after[p] ==> cs.contains(
                    LeaderChange {
                        at_ns,
                        partition: p as u32,
                        old_leader: before[p],
                        new_leader: after[p],
                    },
                )
            &&& forall|i: int|
                0 <= i < cs.len() ==> {
                    let c = #[trigger] cs[i];
                    &&& c.partition < n
                    &&& c.at_ns == at_ns
                    &&& c.old_leader == before[c.partition as int]
                    &&& c.new_leader == after[c.partition as int]
                    &&& c.old_leader != c.new_leader
                }
            &&& forall|i: int, j: int|
                0 <= i < j < cs.len() ==> (#[trigger] cs[i]).partition < (
                #[trigger] cs[j]).partition
        }),
    decreases n,
{
    if n > 0 {
        let head = changes_between(before, after, n - 1, at_ns);
        let cs = changes_between(before, after, n, at_ns);
        lemma_changes(before, after, n - 1, at_ns);
        assert forall|p: int| 0 <= p < n && #[trigger] before[p] != after[p] implies cs.contains(
            LeaderChange {
                at_ns,
                partition: p as u32,
                old_leader: before[p],
                new_leader: after[p],
            },
        ) by {
            let c = LeaderChange {
                at_ns,
                partition: p as u32,
                old_leader: before[p],
                new_leader: after[p],
            };
            if p < n - 1 {
                assert(head.contains(c));
                let i = choose|i: int| 0 <= i < head.len() && head[i] == c;
                assert(cs[i] == c);
            } else {
                assert(cs[head.len() as int] == c);
            }
        }
    }
}

/// What the watch notes between two views is each partition whose leader is
/// another, once, with the leader before and after.
pub proof fn law_changes_noted(before: Seq<i32>, after: Seq<i32>, at_ns: u64)
    requires
        before.len() == after.len(),
        before.len() <= u32::MAX,
    ensures
        ({
            let cs = changes_between(before, after, before.len() as int, at_ns);
            &&& forall|p: int|
                0 <= p < before.len() && #[trigger] before[p] != after[p] ==> cs.contains(
                    LeaderChange {
                        at_ns,
                        partition: p as u32,
                        old_leader: before[p],
                        new_leader: after[p],
                    },
                )
            &&& forall|i: int|
                0 <= i < cs.len() ==> (#[trigger] cs[i]).partition < before.len() && cs[i].at_ns
                    == at_ns && cs[i].old_leader == before[cs[i].partition as int]
                    && cs[i].new_leader == after[cs[i].partition as int] && cs[i].old_leader
                    != cs[i].new_leader
            &&& forall|i: int, j: int|
                0 <= i < j < cs.len() ==> (#[trigger] cs[i]).partition < (
                #[trigger] cs[j]).partition
        }),
{
    lemma_changes(before, after, before.len() as int, at_ns);
}

/// A failover is over with the first change, from the fault on, that gives the
/// partition a leader other than the victim.
pub proof fn law_takeover(
    cs: Seq<LeaderChange>,
    i: int,
    t0_ns: u64,
    partition: u32,
    victim: usize,
    k: int,
)
    requires
        0 <= i <= k < cs.len(),
        cs[k].at_ns >= t0_ns && cs[k].partition == partition && cs[k].new_leader >= 0
            && cs[k].new_leader as int != victim,
        forall|j: int|
            i <= j < k ==> !((#[trigger] cs[j]).at_ns >= t0_ns && cs[j].partition == partition
                && cs[j].new_leader >= 0 && cs[j].new_leader as int != victim),
    ensures
        takeover_from(cs, i, t0_ns, partition, victim) == Some(cs[k]),
    decreases k - i,
{
    if i < k {
        assert(!is_takeover(cs[i], t0_ns, partition, victim));
        law_takeover(cs, i + 1, t0_ns, partition, victim, k);
    }
}

/// Where there was no such change, there was no failover.
pub proof fn law_no_takeover(
    cs: Seq<LeaderChange>,
    i: int,
    t0_ns: u64,
    partition: u32,
    victim: usize,
)
    requires
        0 <= i,
        forall|j: int|
            i <= j < cs.len() ==> !((#[trigger] cs[j]).at_ns >= t0_ns && cs[j].partition
                == partition && cs[j].new_leader >= 0 && cs[j].new_leader as int != victim),
    ensures
        takeover_from(cs, i, t0_ns, partition, victim) is None,
    decreases cs.len() - i,
{
    if i < cs.len() {
        assert(!is_takeover(cs[i], t0_ns, partition, victim));
        law_no_takeover(cs, i + 1, t0_ns, partition, victim);
    }
}

/// An ack counts for its partition alone: its records are added, the clock
/// stands at its time, and the largest gap is the larger of the one before and
/// the time since the ack before it.
pub proof fn law_ack_counted(s: Acked, p: int, n: u64, now_ns: u64, other: int)
    requires
        0 <= p < s.count.len(),
        s.last.len() == s.count.len(),
        s.gap.len() == s.count.len(),
        s.count[p] + n <= u64::MAX,
        now_ns > 0,
    ensures
        ({
            let t = recorded(s, p, n, now_ns);
            let apart = if s.last[p] > 0 && now_ns > s.last[p] {
                now_ns - s.last[p]
            } else {
                0
            };
            &&& t.count.len() == s.count.len() && t.last.len() == s.last.len() && t.gap.len()
                == s.gap.len()
            &&& t.count[p] == s.count[p] + n
            &&& t.last[p] == now_ns
            &&& t.gap[p] == if apart > s.gap[p] {
                apart
            } else {
                s.gap[p] as int
            }
            &&& 0 <= other < s.count.len() && other != p ==> t.count[other] == s.count[other]
                && t.last[other] == s.last[other] && t.gap[other] == s.gap[other]
        }),
{
}

/// The gap that is reported is the largest between two acks or, where it is
/// longer, the silence since the last one.
pub proof fn law_gap_reported(s: Acked, p: int, now_ns: u64)
    ensures
        largest_gap(s, p, now_ns) >= s.gap[p],
        s.last[p] > 0 && now_ns >= s.last[p] ==> largest_gap(s, p, now_ns) >= now_ns - s.last[p],
        largest_gap(s, p, now_ns) == s.gap[p] || s.last[p] > 0 && largest_gap(s, p, now_ns)
            == now_ns - s.last[p],
{
}

/// A percentile is taken at the nearest rank.
pub proof fn law_nearest_rank(n: int, tenths: int)
    requires
        n > 0,
        0 <= tenths <= 10,
    ensures
        0 <= rank_of(n, tenths) < n,
        -5 <= 10 * rank_of(n, tenths) - (n - 1) * tenths <= 5,
        rank_of(n, 0) == 0,
        rank_of(n, 10) == n - 1,
{
    assert(0 <= (n - 1) * tenths <= (n - 1) * 10) by (nonlinear_arith)
        requires
            n > 0,
            0 <= tenths <= 10,
    ;
    assert((n - 1) * 0 == 0);
}

/// Times are rounded to the nearest millisecond and the nearest hundredth of a
/// second.
pub proof fn law_rounded(ns: u64, ms: u64)
    ensures
        -500_000 <= nearest_ms(ns) * 1_000_000 - ns <= 500_000,
        -5 <= centis(ms) * 10 - ms <= 5,
{
}

/// The seconds of a run in which there was load and nothing was acknowledged:
/// each counts once, up to the last second of the load.
pub proof fn law_silence_counted(rows: Seq<TimelineRow>, n: int, last: u32)
    requires
        0 <= n <= rows.len(),
    ensures
        silent_seconds(rows, n, last) == silent(rows, n, last).len(),
        silent(rows, n, last).finite(),
    decreases n,
{
    let s = silent(rows, n, last);
    if n == 0 {
        assert(s =~= Set::<u32>::empty());
    } else {
        law_silence_counted(rows, n - 1, last);
        let t = silent(rows, n - 1, last);
        let second = rows[n - 1].second;
        let again = exists|j: int| 0 <= j < n - 1 && (#[trigger] rows[j]).second == second;
        if second <= last && !again && !acked_in(rows, second) {
            assert(!t.contains(second));
            assert(s =~= t.insert(second));
        } else {
            assert(s =~= t);
        }
    }
}

/// The seconds among the first `n` rows in which nothing was acknowledged.
pub open spec fn silent(rows: Seq<TimelineRow>, n: int, last: u32) -> Set<u32> {
    Set::new(
        |second: u32|
            second <= last && (exists|j: int| 0 <= j < n && (#[trigger] rows[j]).second == second)
                && forall|i: int|
                0 <= i < rows.len() && (#[trigger] rows[i]).second == second ==> rows[i].acked == 0,
    )
}

/// A broker behaves as its fault says: one cut off from its peers still answers
/// its clients; one that is killed or paused answers nobody.
pub proof fn law_fault_behaviour(connects: bool, answers: bool)
    ensures
        behaves(Fault::Isolate, connects, answers) <==> connects && answers,
        behaves(Fault::Kill, connects, answers) <==> !answers,
        behaves(Fault::Pause, connects, answers) <==> !answers,
{
}

/// Watching a cut-off leader ends when it no longer claims to lead or falls
/// silent, with the time of that, or when the budget is spent, without one.
pub proof fn law_claim_watched(
    f: Findings,
    view: std::result::Result<Vec<i32>, String>,
    elapsed_ms: u64,
    watched_ms: u64,
)
    requires
        view matches Ok(v) ==> v@.len() > 0,
    ensures
        ({
            let (g, over) = heard_claim(f, view, elapsed_ms, watched_ms);
            let leads = view is Ok && view->Ok_0@[0] >= 0 && view->Ok_0@[0] as int == f.victim;
            &&& !leads ==> over && g.claim_ms == Some(elapsed_ms)
            &&& leads ==> over == (watched_ms > f.budget_ms) && g.claim_ms == f.claim_ms
            &&& over <==> g.notes.len() == f.notes.len() + 1
            &&& !over ==> g == f
            &&& g == (Findings { claim_ms: g.claim_ms, notes: g.notes, ..f })
        }),
{
}

/// A probe waits five detection times, and fifteen seconds at least.
pub proof fn law_budget(detect_ms: u64)
    requires
        5 * detect_ms <= u64::MAX,
    ensures
        budget_of(detect_ms) >= 15_000,
        budget_of(detect_ms) >= 5 * detect_ms,
        budget_of(detect_ms) == 15_000 || budget_of(detect_ms) == 5 * detect_ms,
{
}

/// A fault is counted once, under its own kind.
pub proof fn law_fault_counted(c: FaultCounts, f: Fault)
    requires
        c.isolate < u32::MAX,
        c.kill < u32::MAX,
        c.pause < u32::MAX,
    ensures
        ({
            let d = counted(c, f);
            &&& d.isolate + d.kill + d.pause == c.isolate + c.kill + c.pause + 1
            &&& f == Fault::Isolate ==> d.isolate == c.isolate + 1
            &&& f == Fault::Kill ==> d.kill == c.kill + 1
            &&& f == Fault::Pause ==> d.pause == c.pause + 1
            &&& d.isolate >= c.isolate && d.kill >= c.kill && d.pause >= c.pause
        }),
{
}

/// Deliveries beyond one for each reader and id are duplicates.
pub proof fn law_extra(report: Report, readers: usize)
    ensures
        report.consumed_total >= report.distinct_consumed * readers ==> extra_of(report, readers)
            + report.distinct_consumed * readers == report.consumed_total,
        report.consumed_total <= report.distinct_consumed * readers ==> extra_of(report, readers)
            == 0,
{
}

/// The row of a fault and role counts its outcomes, and takes each time that
/// one of them has.
pub proof fn law_grouped(os: Seq<FaultOutcome>, fault: Seq<char>, role: Seq<char>)
    ensures
        ({
            let mine = os.filter(|o: FaultOutcome| o.fault@ == fault && o.role@ == role);
            let g = group_of(os, fault, role);
            &&& g.count == mine.len()
            &&& g.moved == mine.filter(|o: FaultOutcome| o.leader_moved_ms is Some).map_values(
                |o: FaultOutcome| o.leader_moved_ms->0,
            )
            &&& g.gaps == mine.filter(|o: FaultOutcome| o.max_gap_ms is Some).map_values(
                |o: FaultOutcome| o.max_gap_ms->0,
            )
        }),
    decreases os.len(),
{
    reveal(Seq::filter);
    let keep = |o: FaultOutcome| o.fault@ == fault && o.role@ == role;
    let some = |o: FaultOutcome| o.leader_moved_ms is Some;
    let gap = |o: FaultOutcome| o.max_gap_ms is Some;
    let moved = |o: FaultOutcome| o.leader_moved_ms->0;
    let wide = |o: FaultOutcome| o.max_gap_ms->0;
    let mine = os.filter(keep);
    let g = group_of(os, fault, role);
    if os.len() == 0 {
        assert(mine.filter(some).map_values(moved) =~= Seq::empty());
        assert(mine.filter(gap).map_values(wide) =~= Seq::empty());
    } else {
        let head = os.drop_last();
        law_grouped(head, fault, role);
        let o = os.last();
        let before = head.filter(keep);
        if keep(o) {
            assert(mine == before.push(o));
            assert(mine.drop_last() =~= before);
            assert(mine.filter(some).map_values(moved) =~= if some(o) {
                before.filter(some).map_values(moved).push(moved(o))
            } else {
                before.filter(some).map_values(moved)
            });
            assert(mine.filter(gap).map_values(wide) =~= if gap(o) {
                before.filter(gap).map_values(wide).push(wide(o))
            } else {
                before.filter(gap).map_values(wide)
            });
        } else {
            assert(mine == before);
        }
    }
}

/// The leaders of a topic are those that the metadata names, and -1 for a
/// partition that it does not name.
pub proof fn law_leaders(parts: Seq<PartitionMeta>, count: u32, p: int)
    requires
        0 <= p < count,
        forall|i: int, j: int|
            0 <= i < j < parts.len() ==> (#[trigger] parts[i]).partition != (
            #[trigger] parts[j]).partition,
    ensures
        leaders_in(parts, count).len() == count,
        forall|i: int|
            0 <= i < parts.len() && (#[trigger] parts[i]).partition == p ==> leaders_in(
                parts,
                count,
            )[p] == parts[i].leader,
        (forall|i: int| 0 <= i < parts.len() ==> (#[trigger] parts[i]).partition != p)
            ==> leaders_in(parts, count)[p] == -1,
    decreases parts.len(),
{
    if parts.len() > 0 {
        let head = parts.drop_last();
        let n = parts.len() - 1;
        assert(forall|i: int| 0 <= i < head.len() ==> head[i] == parts[i]);
        assert forall|i: int, j: int| 0 <= i < j < head.len() implies (#[trigger] head[i]).partition
            != (#[trigger] head[j]).partition by {
            assert(parts[i].partition != parts[j].partition);
        }
        law_leaders(head, count, p);
        assert forall|i: int| 0 <= i < parts.len() && (#[trigger] parts[i]).partition == p implies leaders_in(
            parts,
            count,
        )[p] == parts[i].leader by {
            if i < n {
                assert(parts[i].partition != parts[n].partition);
                assert(head[i].partition == p);
            }
        }
        if forall|i: int| 0 <= i < parts.len() ==> (#[trigger] parts[i]).partition != p {
            assert(parts[n].partition != p);
            assert forall|i: int| 0 <= i < head.len() implies (#[trigger] head[i]).partition
                != p by {
                assert(parts[i].partition != p);
            }
        }
    }
}

/// A reader reports the offset and id of every record that holds an id.
pub proof fn law_pairs(rs: Seq<FetchedRecord>)
    ensures
        pairs_in(rs) == rs.filter(|r: FetchedRecord| r.value@.len() >= 8).map_values(
            |r: FetchedRecord| (r.offset, le_value(r.value@.take(8)) as u64),
        ),
    decreases rs.len(),
{
    reveal(Seq::filter);
    let keep = |r: FetchedRecord| r.value@.len() >= 8;
    let pair = |r: FetchedRecord| (r.offset, le_value(r.value@.take(8)) as u64);
    if rs.len() == 0 {
        assert(rs.filter(keep).map_values(pair) =~= Seq::empty());
    } else {
        let head = rs.drop_last();
        law_pairs(head);
        let r = rs.last();
        assert(rs.filter(keep).map_values(pair) =~= if keep(r) {
            head.filter(keep).map_values(pair).push(pair(r))
        } else {
            head.filter(keep).map_values(pair)
        });
    }
}

/// A leader has a majority where more than half of all views name it; a view
/// that is missing counts against it.
pub proof fn law_majority(views: Seq<Option<Vec<i32>>>, p: int, leader: i32)
    ensures
        carries(views, p, leader) <==> leader >= 0 && 2 * views.filter(
            |v: Option<Vec<i32>>| v is Some && p < v->0@.len() && v->0@[p] == leader,
        ).len() > views.len(),
{
    lemma_votes(views, p, leader);
}

proof fn lemma_votes(views: Seq<Option<Vec<i32>>>, p: int, leader: i32)
    ensures
        votes(views, views.len() as int, p, leader) == views.filter(
            |v: Option<Vec<i32>>| v is Some && p < v->0@.len() && v->0@[p] == leader,
        ).len(),
    decreases views.len(),
{
    reveal(Seq::filter);
    if views.len() > 0 {
        let head = views.drop_last();
        lemma_votes(head, p, leader);
        lemma_votes_prefix(views, head.len() as int, p, leader);
        assert(says(views.last(), p, leader) <==> views.last() is Some && p
            < views.last()->0@.len() && views.last()->0@[p] == leader);
    }
}

proof fn lemma_votes_prefix(views: Seq<Option<Vec<i32>>>, n: int, p: int, leader: i32)
    requires
        0 <= n < views.len(),
    ensures
        votes(views, n, p, leader) == votes(views.drop_last(), n, p, leader),
    decreases n,
{
    if n > 0 {
        lemma_votes_prefix(views, n - 1, p, leader);
    }
}

/// What a fault does to a container, its heal undoes: both name the same
/// container, and a cut and its repair the same network.
pub proof fn law_heal_undoes(d: Docker, i: int)
    ensures
        apply_line(d, i, Fault::Kill) == seq!["kill"@, "-s"@, "KILL"@, d.containers@[i]@],
        heal_line(d, i, Fault::Kill) == seq!["start"@, d.containers@[i]@],
        apply_line(d, i, Fault::Pause) == seq!["pause"@, d.containers@[i]@],
        heal_line(d, i, Fault::Pause) == seq!["unpause"@, d.containers@[i]@],
        apply_line(d, i, Fault::Isolate) == seq![
            "network"@,
            "disconnect"@,
            d.peers_network@,
            d.containers@[i]@,
        ],
        heal_line(d, i, Fault::Isolate) == seq![
            "network"@,
            "connect"@,
            d.peers_network@,
            d.containers@[i]@,
        ],
{
}

proof fn lemma_flag(args: Seq<String>, flag: Seq<char>, i: int, k: int)
    requires
        0 <= i <= k < args.len(),
        args[k]@ == flag,
        forall|j: int| i <= j < k ==> (#[trigger] args[j])@ != flag,
    ensures
        super::preset::flag_from(args, flag, i) == Some(k),
    decreases k - i,
{
    if i < k {
        assert(args[i]@ != flag);
        lemma_flag(args, flag, i + 1, k);
    }
}

/// The value of a flag is the argument behind its first occurrence.
pub proof fn law_flag(args: Seq<String>, k: int)
    requires
        0 <= k < args.len() - 1,
        forall|j: int| 0 <= j < k ==> (#[trigger] args[j])@ != args[k]@,
    ensures
        value_of_flag(args, args[k]@) == Some(args[k + 1]@),
{
    lemma_flag(args, args[k]@, 0, k);
}

/// A strike is the next three numbers of the run's generator: the first says
/// whom it hits, the second when it heals and the third what it is; where the
/// time to heal is fixed, no number is drawn for it.
pub proof fn law_strike_drawn(cfg: RunConfig, brokers: usize, state: u64, hit: Strike)
    requires
        brokers > 0,
        cfg.faults@.len() > 0,
        drawn(cfg, brokers, state, hit),
    ensures
        ({
            let fixed = cfg.min_heal_ms >= cfg.max_heal_ms;
            let first = mix(state_after(state, 1));
            let second = mix(state_after(state, 2));
            let third = mix(
                state_after(
                    state,
                    if fixed {
                        2
                    } else {
                        3
                    },
                ),
            );
            &&& hit.victim as int == first as int % brokers as int
            &&& !fixed ==> hit.heal_ms == cfg.min_heal_ms + second as int % (cfg.max_heal_ms
                - cfg.min_heal_ms)
            &&& hit.fault == cfg.faults@[third as int % cfg.faults@.len() as int]
        }),
{
    reveal_with_fuel(state_after, 4);
    let n: usize = cfg.faults.len();
    assert(cfg.faults@.len() == n);
}

/// The milliseconds between two moments are the whole ones that passed.
pub proof fn law_ms_between(from_ns: u64, to_ns: u64)
    requires
        from_ns <= to_ns,
    ensures
        ms_between(from_ns, to_ns) * 1_000_000 <= to_ns - from_ns,
        to_ns - from_ns < (ms_between(from_ns, to_ns) + 1) * 1_000_000,
{
}

/// The outcomes of a fault are those that name it, in their order, and each
/// outcome has its row in the report: its fault is listed, and its role under
/// that fault.
pub proof fn law_outcome_listed(os: Seq<FaultOutcome>, fault: Seq<char>, i: int)
    requires
        0 <= i < os.len(),
    ensures
        of_fault(os, fault) == os.filter(|o: FaultOutcome| o.fault@ == fault),
        distinct_texts(faults_of(os)).contains(os[i].fault@),
        os[i].fault@ == fault ==> distinct_texts(roles_of(of_fault(os, fault))).contains(
            os[i].role@,
        ),
{
    lemma_of_fault(os, fault);
    law_distinct_texts(faults_of(os));
    assert(faults_of(os)[i] == os[i].fault@);
    assert(faults_of(os).contains(os[i].fault@));
    let mine = of_fault(os, fault);
    law_distinct_texts(roles_of(mine));
    if os[i].fault@ == fault {
        let named = |o: FaultOutcome| o.fault@ == fault;
        assert(mine == os.filter(named));
        assert(os.filter(named).contains(os[i]));
        let k = choose|k: int| 0 <= k < mine.len() && mine[k] == os[i];
        assert(roles_of(mine)[k] == os[i].role@);
        assert(roles_of(mine).contains(os[i].role@));
    }
}

proof fn lemma_of_fault(os: Seq<FaultOutcome>, fault: Seq<char>)
    ensures
        of_fault(os, fault) == os.filter(|o: FaultOutcome| o.fault@ == fault),
    decreases os.len(),
{
    reveal(Seq::filter);
    if os.len() > 0 {
        lemma_of_fault(os.drop_last(), fault);
    }
}

} // verus!
