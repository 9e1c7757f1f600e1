//! The seeded fault schedule, the same for every target and workload.
//!
//! Gap → fault → heal delay → heal → wait for full health → next gap. One
//! victim at a time, so no fault ever lands on a cluster still recovering from
//! the last one, and the seed fully determines the *schedule* (which fault,
//! which broker, what delays) — not the interleaving with real processes, which
//! is the honest limit of process-level fault injection. Nothing here knows
//! which system is under test: the target applies faults and answers metadata,
//! the workload speaks the protocol, and the checker judges what clients saw.

use super::cluster::Fault;
use super::failover::{
    nearest_ms, outcome_csv_row, outcome_text, outcomes_csv_header, to_nearest_ms, FaultOutcome,
    LeaderChange,
};
use super::workload::AckLevel;
use crate::harness::rng::{mix, SplitMix64, GOLDEN};
use crate::text::{
    decimal, padded, push_decimal, push_padded, push_right, push_signed, right_cell, signed_decimal,
};
use vstd::prelude::*;
use vstd::string::*;

verus! {

#[derive(Clone, Debug)]
pub struct RunConfig {
    pub topic: String,
    pub partitions: u32,
    pub replication: u32,
    pub seed: u64,
    pub duration_secs: u64,
    /// Empty = no faults (baseline run).
    pub faults: Vec<Fault>,
    pub acks: AckLevel,
    pub batch_records: usize,
    pub pace_ms: u64,
    pub value_bytes: usize,
    pub min_gap_ms: u64,
    pub max_gap_ms: u64,
    pub min_heal_ms: u64,
    pub max_heal_ms: u64,
    pub detect_ms: u64,
    pub readers_per_partition: usize,
    pub out_dir: String,
}

/// A delay between two bounds, drawn from a state of the generator. Equal bounds
/// are a fixed cadence, which draws nothing.
pub open spec fn delay_of(lo: u64, hi: u64, state: u64) -> u64 {
    if lo >= hi {
        lo
    } else {
        (lo + mix(state) % (hi - lo) as u64) as u64
    }
}

/// The state of the generator after it drew a delay.
pub open spec fn state_after_delay(lo: u64, hi: u64, state: u64) -> u64 {
    if lo >= hi {
        state
    } else {
        state.wrapping_add(GOLDEN)
    }
}

/// Draws a delay between two bounds.
pub fn draw_delay(rng: &mut SplitMix64, lo: u64, hi: u64) -> (r: u64)
    ensures
        final(rng)@ == state_after_delay(lo, hi, old(rng)@),
        r == delay_of(lo, hi, final(rng)@),
        lo < hi ==> lo <= r < hi,
        lo >= hi ==> r == lo,
{
    if lo >= hi {
        lo
    } else {
        rng.range(lo, hi)
    }
}

/// Which fault hits whom, and for how long.
#[derive(Clone, Copy)]
pub struct Strike {
    pub victim: usize,
    pub heal_ms: u64,
    pub fault: Fault,
}

/// Draws the next fault for a cluster of `brokers` brokers: the victim, the
/// delay to its heal, and the fault.
pub fn draw_strike(rng: &mut SplitMix64, cfg: &RunConfig, brokers: usize) -> (r: Strike)
    requires
        brokers > 0,
        cfg.faults@.len() > 0,
    ensures
        drawn(*cfg, brokers, old(rng)@, r),
        final(rng)@ == state_after_strike(*cfg, old(rng)@),
        r.victim < brokers,
{
    let victim: u64 = rng.range(0, brokers as u64);
    let heal_ms: u64 = draw_delay(rng, cfg.min_heal_ms, cfg.max_heal_ms);
    let fault: Fault = *rng.pick(cfg.faults.as_slice());
    Strike { victim: victim as usize, heal_ms, fault }
}

/// The seed determines the schedule: two generators in one state draw the same
/// strike.
pub proof fn law_seed_determines(cfg: RunConfig, brokers: usize, state: u64, a: Strike, b: Strike)
    requires
        brokers > 0,
        cfg.faults@.len() > 0,
        drawn(cfg, brokers, state, a),
        drawn(cfg, brokers, state, b),
    ensures
        a.victim == b.victim,
        a.heal_ms == b.heal_ms,
        a.fault == b.fault,
{
}

/// The state of the generator after it drew a strike.
pub open spec fn state_after_strike(cfg: RunConfig, state: u64) -> u64 {
    state_after_delay(
        cfg.min_heal_ms,
        cfg.max_heal_ms,
        state.wrapping_add(GOLDEN),
    ).wrapping_add(GOLDEN)
}

/// A strike as it is drawn in a state of the generator.
pub open spec fn drawn(cfg: RunConfig, brokers: usize, state: u64, r: Strike) -> bool {
    let s1 = state.wrapping_add(GOLDEN);
    let s2 = state_after_delay(cfg.min_heal_ms, cfg.max_heal_ms, s1);
    let s3 = state_after_strike(cfg, state);
    &&& r.victim == mix(s1) % brokers as u64
    &&& r.heal_ms == delay_of(cfg.min_heal_ms, cfg.max_heal_ms, s2)
    &&& r.fault == cfg.faults@[(mix(s3) % cfg.faults@.len() as u64) as int]
}

/// The name of a partition's reader, by its place among the readers there.
pub fn reader_name(reader: u8, partition: u32) -> (r: String)
    requires
        97 + reader <= 255,
    ensures
        r@ == "reader-"@.push((97 + reader) as char) + "-"@ + decimal(partition as nat),
{
    let mut r: String = "reader-".to_owned();
    let letter: u8 = 97 + reader;
    r.push(letter as char);
    r.append("-");
    push_decimal(&mut r, partition as u64);
    r
}

/// The ids of a batch that starts at `base`.
pub fn batch_ids(base: u64, count: usize) -> (r: Vec<u64>)
    requires
        base + count <= u64::MAX,
    ensures
        r@ == Seq::new(count as nat, |i: int| (base + i) as u64),
{
    let mut r: Vec<u64> = Vec::new();
    let mut i: usize = 0;
    while i < count
        invariant
            i <= count,
            base + count <= u64::MAX,
            r@ == Seq::new(i as nat, |j: int| (base + j) as u64),
        decreases count - i,
    {
        r.push(base + i as u64);
        assert(r@ =~= Seq::new((i + 1) as nat, |j: int| (base + j) as u64));
        i += 1;
    }
    r
}

/// The victim's role for a partition.
pub open spec fn role_of(leader: i32, victim: usize) -> Seq<char> {
    if leader >= 0 && leader as int == victim {
        "leader"@
    } else {
        "follower"@
    }
}

/// The victim's role for a partition whose leader is `leader`.
pub fn victim_role(leader: i32, victim: usize) -> (r: &'static str)
    ensures
        r@ == role_of(leader, victim),
{
    if leader >= 0 && leader as u64 == victim as u64 {
        "leader"
    } else {
        "follower"
    }
}

/// Whole milliseconds from one moment to a later one, both in nanoseconds.
pub open spec fn ms_between(from_ns: u64, to_ns: u64) -> u64 {
    ((to_ns - from_ns) / 1_000_000) as u64
}

/// What a fault that took effect `t0_ns` into the run did to one partition.
/// `moved` is the takeover that was seen, `first_ack_ns` and `max_gap_ns` are
/// what the ack clock says.
pub fn fault_outcome(
    strike: Strike,
    role: &'static str,
    t0_ns: u64,
    cli_ms: u64,
    partition: u32,
    moved: Option<LeaderChange>,
    first_ack_ns: Option<u64>,
    max_gap_ns: Option<u64>,
) -> (r: FaultOutcome)
    requires
        moved matches Some(c) ==> c.at_ns >= t0_ns,
        first_ack_ns matches Some(t) ==> t >= t0_ns,
    ensures
        r.fault@ == strike.fault.label(),
        r.victim == strike.victim,
        r.t0_ms == nearest_ms(t0_ns),
        r.cli_ms == cli_ms,
        r.heal_after_ms == strike.heal_ms,
        r.partition == partition,
        r.role == role,
        r.leader_moved_ms == (match moved {
            Some(c) => Some(ms_between(t0_ns, c.at_ns)),
            None => None,
        }),
        r.new_leader == (match moved {
            Some(c) => c.new_leader,
            None => -1i32,
        }),
        r.first_ack_ms == (match first_ack_ns {
            Some(t) => Some(ms_between(t0_ns, t)),
            None => None,
        }),
        r.max_gap_ms == (match max_gap_ns {
            Some(gap) => Some(ms_between(0, gap)),
            None => None,
        }),
{
    let (leader_moved_ms, new_leader): (Option<u64>, i32) = match moved {
        Some(c) => (Some((c.at_ns - t0_ns) / 1_000_000), c.new_leader),
        None => (None, -1),
    };
    let first_ack_ms: Option<u64> = match first_ack_ns {
        Some(t) => Some((t - t0_ns) / 1_000_000),
        None => None,
    };
    let max_gap_ms: Option<u64> = match max_gap_ns {
        Some(gap) => Some(gap / 1_000_000),
        None => None,
    };
    FaultOutcome {
        fault: strike.fault.name(),
        victim: strike.victim,
        t0_ms: to_nearest_ms(t0_ns),
        cli_ms,
        heal_after_ms: strike.heal_ms,
        partition,
        role,
        leader_moved_ms,
        new_leader,
        first_ack_ms,
        max_gap_ms,
    }
}

/// Hundredths of seconds as seconds in a cell.
pub open spec fn clock_text(at_cs: u64) -> Seq<char> {
    right_cell(decimal((at_cs / 100) as nat) + "."@ + padded((at_cs % 100) as nat, 2), 7)
}

/// A line of the schedule's log.
pub open spec fn event_text(at_cs: u64, message: Seq<char>) -> Seq<char> {
    "[t="@ + clock_text(at_cs) + "s] "@ + message
}

/// A line of the schedule's log, `at_cs` hundredths of a second into the run.
pub fn event_line(at_cs: u64, message: &str) -> (r: String)
    ensures
        r@ == event_text(at_cs, message@),
{
    let mut t: String = String::new();
    push_decimal(&mut t, at_cs / 100);
    t.append(".");
    push_padded(&mut t, at_cs % 100, 2);
    assert(t@ =~= decimal((at_cs / 100) as nat) + "."@ + padded((at_cs % 100) as nat, 2));
    let mut r: String = "[t=".to_owned();
    push_right(&mut r, t.as_str(), 7);
    r.append("s] ");
    r.append(message);
    assert(r@ =~= event_text(at_cs, message@));
    r
}

/// The victim's roles, partition by partition.
pub open spec fn roles_text(leaders: Seq<i32>, victim: usize, n: int) -> Seq<char>
    decreases n,
{
    if n <= 0 {
        Seq::empty()
    } else {
        let p = n - 1;
        roles_text(leaders, victim, p) + (if p == 0 {
            Seq::empty()
        } else {
            " "@
        }) + "p"@ + decimal(p as nat) + ":"@ + role_of(leaders[p], victim)
    }
}

/// How a fault is announced.
pub open spec fn strike_text(strike: Strike, name: Seq<char>, leaders: Seq<i32>) -> Seq<char> {
    "FAULT "@ + strike.fault.label() + " broker "@ + decimal(strike.victim as nat) + " ("@ + name
        + ") ["@ + roles_text(leaders, strike.victim, leaders.len() as int) + "], heal in "@
        + decimal(strike.heal_ms as nat) + " ms"@
}

/// Announces a fault.
pub fn strike_message(strike: Strike, name: &str, leaders: &Vec<i32>) -> (r: String)
    ensures
        r@ == strike_text(strike, name@, leaders@),
{
    let mut r: String = "FAULT ".to_owned();
    r.append(strike.fault.name());
    r.append(" broker ");
    push_decimal(&mut r, strike.victim as u64);
    r.append(" (");
    r.append(name);
    r.append(") [");
    let ghost lead = r@;
    let mut p: usize = 0;
    assert(r@ =~= lead + roles_text(leaders@, strike.victim, 0));
    while p < leaders.len()
        invariant
            p <= leaders@.len(),
            r@ == lead + roles_text(leaders@, strike.victim, p as int),
        decreases leaders@.len() - p,
    {
        if p > 0 {
            r.append(" ");
        }
        r.append("p");
        push_decimal(&mut r, p as u64);
        r.append(":");
        r.append(victim_role(leaders[p], strike.victim));
        assert(r@ =~= lead + roles_text(leaders@, strike.victim, p + 1));
        p += 1;
    }
    r.append("], heal in ");
    push_decimal(&mut r, strike.heal_ms);
    r.append(" ms");
    assert(r@ =~= strike_text(strike, name@, leaders@));
    r
}

/// Announces a heal.
pub fn heal_message(strike: Strike) -> (r: String)
    ensures
        r@ == "HEAL "@ + strike.fault.label() + " broker "@ + decimal(strike.victim as nat)
            + "; waiting for full health"@,
{
    let mut r: String = "HEAL ".to_owned();
    r.append(strike.fault.name());
    r.append(" broker ");
    push_decimal(&mut r, strike.victim as u64);
    r.append("; waiting for full health");
    r
}

/// The table of outcomes.
pub open spec fn outcomes_text(os: Seq<FaultOutcome>) -> Seq<char>
    decreases os.len(),
{
    if os.len() == 0 {
        Seq::empty()
    } else {
        outcomes_text(os.drop_last()) + outcome_text(os.last()) + "\n"@
    }
}

/// The file of outcomes.
pub fn outcomes_csv(outcomes: &Vec<FaultOutcome>) -> (r: String)
    ensures
        r@
            == "fault,victim,t0_s,cli_ms,heal_after_ms,partition,role,leader_moved_ms,new_leader,first_ack_ms,max_gap_ms"@
            + "\n"@ + outcomes_text(outcomes@),
{
    let mut r: String = outcomes_csv_header().to_owned();
    r.append("\n");
    let ghost head = r@;
    let ghost os = outcomes@;
    let mut i: usize = 0;
    assert(r@ =~= head + outcomes_text(os.take(0)));
    while i < outcomes.len()
        invariant
            i <= outcomes@.len(),
            os == outcomes@,
            r@ == head + outcomes_text(os.take(i as int)),
        decreases outcomes@.len() - i,
    {
        proof {
            assert(os.take(i + 1).drop_last() =~= os.take(i as int));
            assert(os.take(i + 1).last() == outcomes@[i as int]);
        }
        r.append(outcome_csv_row(&outcomes[i]).as_str());
        r.append("\n");
        assert(r@ =~= head + outcomes_text(os.take(i + 1)));
        i += 1;
    }
    assert(os.take(i as int) =~= os);
    r
}

/// One row of the ack timeline: how many ids a partition acked in a second.
#[derive(Clone, Copy)]
pub struct TimelineRow {
    pub second: u32,
    pub partition: u32,
    pub acked: u64,
}

pub open spec fn timeline_text(rows: Seq<TimelineRow>) -> Seq<char>
    decreases rows.len(),
{
    if rows.len() == 0 {
        Seq::empty()
    } else {
        let r = rows.last();
        timeline_text(rows.drop_last()) + decimal(r.second as nat) + ","@ + decimal(
            r.partition as nat,
        ) + ","@ + decimal(r.acked as nat) + "\n"@
    }
}

/// The file of the ack timeline.
pub fn timeline_csv(rows: &Vec<TimelineRow>) -> (r: String)
    ensures
        r@ == "second,partition,acked\n"@ + timeline_text(rows@),
{
    let mut r: String = "second,partition,acked\n".to_owned();
    let ghost head = r@;
    let ghost all = rows@;
    let mut i: usize = 0;
    assert(r@ =~= head + timeline_text(all.take(0)));
    while i < rows.len()
        invariant
            i <= rows@.len(),
            all == rows@,
            r@ == head + timeline_text(all.take(i as int)),
        decreases rows@.len() - i,
    {
        proof {
            assert(all.take(i + 1).drop_last() =~= all.take(i as int));
            assert(all.take(i + 1).last() == rows@[i as int]);
        }
        push_decimal(&mut r, rows[i].second as u64);
        r.append(",");
        push_decimal(&mut r, rows[i].partition as u64);
        r.append(",");
        push_decimal(&mut r, rows[i].acked);
        r.append("\n");
        assert(r@ =~= head + timeline_text(all.take(i + 1)));
        i += 1;
    }
    assert(all.take(i as int) =~= all);
    r
}

/// Whether any partition acked in a second.
pub open spec fn acked_in(rows: Seq<TimelineRow>, second: u32) -> bool {
    exists|i: int| 0 <= i < rows.len() && (#[trigger] rows[i]).second == second && rows[i].acked > 0
}

/// How many of the seconds that the first `n` rows show, up to `last`, had no
/// ack at all.
pub open spec fn silent_seconds(rows: Seq<TimelineRow>, n: int, last: u32) -> nat
    decreases n,
{
    if n <= 0 {
        0
    } else {
        let second = rows[n - 1].second;
        let again = exists|j: int| 0 <= j < n - 1 && (#[trigger] rows[j]).second == second;
        silent_seconds(rows, n - 1, last) + if second <= last && !again && !acked_in(rows, second) {
            1nat
        } else {
            0
        }
    }
}

fn was_shown(rows: &Vec<TimelineRow>, n: usize, second: u32) -> (r: bool)
    requires
        n <= rows@.len(),
    ensures
        r == exists|j: int| 0 <= j < n && (#[trigger] rows@[j]).second == second,
{
    let mut i: usize = 0;
    while i < n
        invariant
            i <= n <= rows@.len(),
            forall|j: int| 0 <= j < i ==> (#[trigger] rows@[j]).second != second,
        decreases n - i,
    {
        if rows[i].second == second {
            assert(rows@[i as int].second == second);
            return true;
        }
        i += 1;
    }
    false
}

fn was_acked(rows: &Vec<TimelineRow>, second: u32) -> (r: bool)
    ensures
        r == acked_in(rows@, second),
{
    let mut i: usize = 0;
    while i < rows.len()
        invariant
            i <= rows@.len(),
            forall|j: int|
                0 <= j < i ==> (#[trigger] rows@[j]).second != second || rows@[j].acked == 0,
        decreases rows@.len() - i,
    {
        if rows[i].second == second && rows[i].acked > 0 {
            assert(rows@[i as int].second == second);
            return true;
        }
        i += 1;
    }
    false
}

/// How many load-seconds had zero acks.
pub fn zero_ack_seconds(rows: &Vec<TimelineRow>, load_seconds: u32) -> (r: usize)
    ensures
        r == silent_seconds(rows@, rows@.len() as int, load_seconds),
{
    let mut count: usize = 0;
    let mut i: usize = 0;
    while i < rows.len()
        invariant
            i <= rows@.len(),
            count <= i,
            count == silent_seconds(rows@, i as int, load_seconds),
        decreases rows@.len() - i,
    {
        let second: u32 = rows[i].second;
        if second <= load_seconds && !was_shown(rows, i, second) && !was_acked(rows, second) {
            count += 1;
        }
        i += 1;
    }
    count
}

/// Milliseconds as seconds in a cell.
pub open spec fn moment_text(at_ms: u64) -> Seq<char> {
    right_cell(decimal((at_ms / 1000) as nat) + "."@ + padded((at_ms % 1000) as nat, 3), 7)
}

pub open spec fn changes_text(cs: Seq<LeaderChange>) -> Seq<char>
    decreases cs.len(),
{
    if cs.len() == 0 {
        Seq::empty()
    } else {
        let c = cs.last();
        changes_text(cs.drop_last()) + "[t="@ + moment_text(nearest_ms(c.at_ns)) + "s] p"@ + decimal(
            c.partition as nat,
        ) + " leader "@ + signed_decimal(c.old_leader as int) + " -> "@ + signed_decimal(
            c.new_leader as int,
        ) + "\n"@
    }
}

/// The log of leader changes.
pub fn leaders_log(changes: &Vec<LeaderChange>) -> (r: String)
    ensures
        r@ == changes_text(changes@),
{
    let mut r: String = String::new();
    let ghost cs = changes@;
    let mut i: usize = 0;
    assert(r@ =~= changes_text(cs.take(0)));
    while i < changes.len()
        invariant
            i <= changes@.len(),
            cs == changes@,
            r@ == changes_text(cs.take(i as int)),
        decreases changes@.len() - i,
    {
        let c: LeaderChange = changes[i];
        let ghost before = r@;
        proof {
            assert(cs.take(i + 1).drop_last() =~= cs.take(i as int));
            assert(cs.take(i + 1).last() == c);
        }
        let mut t: String = String::new();
        let at_ms: u64 = to_nearest_ms(c.at_ns);
        push_decimal(&mut t, at_ms / 1000);
        t.append(".");
        push_padded(&mut t, at_ms % 1000, 3);
        assert(t@ =~= decimal((at_ms / 1000) as nat) + "."@ + padded((at_ms % 1000) as nat, 3));
        r.append("[t=");
        push_right(&mut r, t.as_str(), 7);
        r.append("s] p");
        push_decimal(&mut r, c.partition as u64);
        r.append(" leader ");
        push_signed(&mut r, c.old_leader as i64);
        r.append(" -> ");
        push_signed(&mut r, c.new_leader as i64);
        r.append("\n");
        assert(r@ =~= changes_text(cs.take(i + 1)));
        i += 1;
    }
    assert(cs.take(i as int) =~= cs);
    r
}

} // verus!
