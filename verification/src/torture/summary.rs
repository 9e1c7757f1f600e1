//! What a run of the schedule found: the checker's verdict, and how long
//! clients felt each fault.

use super::cluster::Fault;
use super::failover::{percentiles, rank_of, FaultOutcome};
use crate::checker::Report;
use crate::order::{add_text, distinct_texts, sorted_numbers, texts};
use crate::text::{decimal, decimal_text, left_cell, push_decimal, push_left, same_text};
use vstd::prelude::*;
use vstd::string::*;

verus! {

/// How often each fault was injected.
#[derive(Clone, Copy, Debug)]
pub struct FaultCounts {
    pub isolate: u32,
    pub kill: u32,
    pub pause: u32,
}

/// One more of a fault.
pub open spec fn counted(c: FaultCounts, f: Fault) -> FaultCounts {
    match f {
        Fault::Isolate => FaultCounts { isolate: (c.isolate + 1) as u32, ..c },
        Fault::Kill => FaultCounts { kill: (c.kill + 1) as u32, ..c },
        Fault::Pause => FaultCounts { pause: (c.pause + 1) as u32, ..c },
    }
}

/// The count of one fault behind those before it, if it was injected.
pub open spec fn count_text(before: Seq<char>, f: Fault, n: u32) -> Seq<char> {
    if n == 0 {
        before
    } else {
        before + (if before.len() == 0 {
            Seq::empty()
        } else {
            ", "@
        }) + "\""@ + f.label() + "\": "@ + decimal(n as nat)
    }
}

/// The counts by name, those of the faults that were injected.
pub open spec fn counts_text(c: FaultCounts) -> Seq<char> {
    let t1 = count_text(Seq::empty(), Fault::Isolate, c.isolate);
    let t2 = count_text(t1, Fault::Kill, c.kill);
    "{"@ + count_text(t2, Fault::Pause, c.pause) + "}"@
}

fn push_count(out: &mut String, f: Fault, n: u32)
    ensures
        final(out)@ == count_text(old(out)@, f, n),
{
    if n == 0 {
        return;
    }
    let ghost before = out@;
    if out.as_str().unicode_len() > 0 {
        out.append(", ");
    } else {
        assert(before + Seq::<char>::empty() =~= before);
    }
    out.append("\"");
    out.append(f.name());
    out.append("\": ");
    push_decimal(out, n as u64);
}

impl FaultCounts {
    pub fn new() -> (r: Self)
        ensures
            r == (FaultCounts { isolate: 0, kill: 0, pause: 0 }),
    {
        FaultCounts { isolate: 0, kill: 0, pause: 0 }
    }

    /// Counts a fault.
    pub fn count(&mut self, f: Fault)
        requires
            old(self).isolate < u32::MAX,
            old(self).kill < u32::MAX,
            old(self).pause < u32::MAX,
        ensures
            *final(self) == counted(*old(self), f),
    {
        match f {
            Fault::Isolate => {
                self.isolate = self.isolate + 1;
            },
            Fault::Kill => {
                self.kill = self.kill + 1;
            },
            Fault::Pause => {
                self.pause = self.pause + 1;
            },
        }
    }

    pub fn text(&self) -> (r: String)
        ensures
            r@ == counts_text(*self),
    {
        let mut counts: String = String::new();
        assert(counts@ =~= Seq::empty());
        push_count(&mut counts, Fault::Isolate, self.isolate);
        push_count(&mut counts, Fault::Kill, self.kill);
        push_count(&mut counts, Fault::Pause, self.pause);
        let mut r: String = "{".to_owned();
        r.append(counts.as_str());
        r.append("}");
        r
    }
}

pub struct RunSummary {
    pub report: Report,
    pub readers_per_partition: usize,
    /// Times the cluster failed to re-form within the budget after a heal;
    /// > 0 means the schedule was cut short (see schedule.log).
    pub health_incidents: u32,
    pub fault_counts: FaultCounts,
    pub outcomes: Vec<FaultOutcome>,
    pub acked_total: u64,
    pub zero_ack_seconds: u32,
    pub load_seconds: u32,
}

/// The faults of outcomes.
pub open spec fn faults_of(os: Seq<FaultOutcome>) -> Seq<Seq<char>> {
    os.map_values(|o: FaultOutcome| o.fault@)
}

/// The outcomes of one fault.
pub open spec fn of_fault(os: Seq<FaultOutcome>, fault: Seq<char>) -> Seq<FaultOutcome>
    decreases os.len(),
{
    if os.len() == 0 {
        Seq::empty()
    } else if os.last().fault@ == fault {
        of_fault(os.drop_last(), fault).push(os.last())
    } else {
        of_fault(os.drop_last(), fault)
    }
}

/// The roles of the victims of outcomes.
pub open spec fn roles_of(os: Seq<FaultOutcome>) -> Seq<Seq<char>> {
    os.map_values(|o: FaultOutcome| o.role@)
}

/// What a group of outcomes shows.
pub struct Group {
    pub moved: Seq<u64>,
    pub gaps: Seq<u64>,
    pub count: nat,
}

/// A number more, if there is one.
pub open spec fn with_some(s: Seq<u64>, v: Option<u64>) -> Seq<u64> {
    match v {
        Some(n) => s.push(n),
        None => s,
    }
}

/// The outcomes of one fault in one role.
pub open spec fn group_of(os: Seq<FaultOutcome>, fault: Seq<char>, role: Seq<char>) -> Group
    decreases os.len(),
{
    if os.len() == 0 {
        Group { moved: Seq::empty(), gaps: Seq::empty(), count: 0 }
    } else {
        let g = group_of(os.drop_last(), fault, role);
        let o = os.last();
        if o.fault@ == fault && o.role@ == role {
            Group {
                moved: with_some(g.moved, o.leader_moved_ms),
                gaps: with_some(g.gaps, o.max_gap_ms),
                count: g.count + 1,
            }
        } else {
            g
        }
    }
}

/// The percentiles of numbers.
pub open spec fn spread_text(xs: Seq<u64>) -> Seq<char> {
    let s = sorted_numbers(xs);
    let n = s.len() as int;
    if xs.len() == 0 {
        "-"@
    } else {
        decimal(s[0] as nat) + "/"@ + decimal(s[rank_of(n, 5)] as nat) + "/"@ + decimal(
            s[rank_of(n, 9)] as nat,
        ) + "/"@ + decimal(s[n - 1] as nat) + " (n="@ + decimal(xs.len()) + ")"@
    }
}

fn spread(xs: &Vec<u64>) -> (r: String)
    ensures
        r@ == spread_text(xs@),
{
    let n: usize = xs.len();
    match percentiles(xs) {
        Some((min, p50, p90, max, _)) => {
            let mut r: String = decimal_text(min);
            r.append("/");
            push_decimal(&mut r, p50);
            r.append("/");
            push_decimal(&mut r, p90);
            r.append("/");
            push_decimal(&mut r, max);
            r.append(" (n=");
            push_decimal(&mut r, n as u64);
            r.append(")");
            r
        },
        None => "-".to_owned(),
    }
}

/// The line of a group.
pub open spec fn group_text(os: Seq<FaultOutcome>, fault: Seq<char>, role: Seq<char>) -> Seq<char> {
    let g = group_of(os, fault, role);
    left_cell(fault, 8) + " "@ + left_cell(role, 9) + " "@ + left_cell(decimal(g.count), 3) + " "@
        + left_cell(spread_text(g.moved), 36) + " "@ + spread_text(g.gaps) + "\n"@
}

/// The lines of one fault, role by role.
pub open spec fn fault_text(
    os: Seq<FaultOutcome>,
    fault: Seq<char>,
    roles: Seq<Seq<char>>,
) -> Seq<char>
    decreases roles.len(),
{
    if roles.len() == 0 {
        Seq::empty()
    } else {
        fault_text(os, fault, roles.drop_last()) + group_text(os, fault, roles.last())
    }
}

/// The lines of faults, each with its roles.
pub open spec fn groups_text(os: Seq<FaultOutcome>, faults: Seq<Seq<char>>) -> Seq<char>
    decreases faults.len(),
{
    if faults.len() == 0 {
        Seq::empty()
    } else {
        let f = faults.last();
        groups_text(os, faults.drop_last()) + fault_text(
            os,
            f,
            distinct_texts(roles_of(of_fault(os, f))),
        )
    }
}

/// Deliveries beyond one for each reader and id.
pub open spec fn extra_of(report: Report, readers: usize) -> nat {
    let owed = report.distinct_consumed * readers;
    if report.consumed_total > owed {
        (report.consumed_total - owed) as nat
    } else {
        0
    }
}

/// What a run says of availability and duplicates.
pub open spec fn totals_text(s: RunSummary) -> Seq<char> {
    "availability: "@ + decimal(s.zero_ack_seconds as nat) + " of "@ + decimal(
        s.load_seconds as nat,
    ) + " load-seconds had zero acks; "@ + decimal(s.acked_total as nat)
        + " ids acked in total\n"@ + (if s.health_incidents > 0 {
        "WARNING: cluster failed to re-form after a heal "@ + decimal(s.health_incidents as nat)
            + " time(s); fault injection was cut short (see schedule.log)\n"@
    } else {
        Seq::empty()
    }) + "duplicates: "@ + decimal(extra_of(s.report, s.readers_per_partition))
        + " deliveries beyond one per reader per id ("@ + decimal(s.readers_per_partition as nat)
        + " readers per partition; raw checker count "@ + decimal(
        s.report.duplicate_deliveries as nat,
    ) + " includes the extra readers)\n"@
}

/// The statistics of a run.
pub open spec fn stats_text(s: RunSummary) -> Seq<char> {
    "fault    role      n   leader moved (min/p50/p90/max ms)   largest ack gap in fault window (min/p50/p90/max ms)\n"@
        + groups_text(s.outcomes@, distinct_texts(faults_of(s.outcomes@))) + totals_text(s)
}

fn fault_names(os: &Vec<FaultOutcome>) -> (r: Vec<String>)
    ensures
        texts(r@) == distinct_texts(faults_of(os@)),
{
    let mut r: Vec<String> = Vec::new();
    let ghost names = faults_of(os@);
    let mut i: usize = 0;
    assert(names.take(0) =~= Seq::empty());
    assert(texts(r@) =~= Seq::empty());
    while i < os.len()
        invariant
            i <= os@.len(),
            names == faults_of(os@),
            texts(r@) == distinct_texts(names.take(i as int)),
        decreases os@.len() - i,
    {
        let name: String = os[i].fault.to_owned();
        proof {
            assert(names.take(i + 1).drop_last() =~= names.take(i as int));
            assert(names.take(i + 1).last() == name@);
        }
        add_text(&mut r, &name);
        i += 1;
    }
    assert(names.take(i as int) =~= names);
    r
}

fn role_names(os: &Vec<FaultOutcome>, fault: &str) -> (r: Vec<String>)
    ensures
        texts(r@) == distinct_texts(roles_of(of_fault(os@, fault@))),
{
    let mut r: Vec<String> = Vec::new();
    let ghost all = os@;
    let mut i: usize = 0;
    assert(texts(r@) =~= Seq::empty());
    assert(roles_of(of_fault(all.take(0), fault@)) =~= Seq::empty());
    while i < os.len()
        invariant
            i <= os@.len(),
            all == os@,
            texts(r@) == distinct_texts(roles_of(of_fault(all.take(i as int), fault@))),
        decreases os@.len() - i,
    {
        let ghost before = of_fault(all.take(i as int), fault@);
        proof {
            assert(all.take(i + 1).drop_last() =~= all.take(i as int));
            assert(all.take(i + 1).last() == os@[i as int]);
        }
        if same_text(os[i].fault, fault) {
            let role: String = os[i].role.to_owned();
            proof {
                let after = roles_of(before.push(os@[i as int]));
                assert(after.drop_last() =~= roles_of(before));
                assert(after.last() == role@);
            }
            add_text(&mut r, &role);
        }
        i += 1;
    }
    assert(all.take(i as int) =~= all);
    r
}

fn group_line(os: &Vec<FaultOutcome>, fault: &str, role: &str) -> (r: String)
    ensures
        r@ == group_text(os@, fault@, role@),
{
    let ghost all = os@;
    let mut moved: Vec<u64> = Vec::new();
    let mut gaps: Vec<u64> = Vec::new();
    let mut count: usize = 0;
    let mut i: usize = 0;
    assert(moved@ =~= group_of(all.take(0), fault@, role@).moved);
    assert(gaps@ =~= group_of(all.take(0), fault@, role@).gaps);
    while i < os.len()
        invariant
            i <= os@.len(),
            all == os@,
            count <= i,
            group_of(all.take(i as int), fault@, role@) == (Group {
                moved: moved@,
                gaps: gaps@,
                count: count as nat,
            }),
        decreases os@.len() - i,
    {
        proof {
            assert(all.take(i + 1).drop_last() =~= all.take(i as int));
            assert(all.take(i + 1).last() == os@[i as int]);
        }
        if same_text(os[i].fault, fault) && same_text(os[i].role, role) {
            if let Some(m) = os[i].leader_moved_ms {
                moved.push(m);
            }
            if let Some(g) = os[i].max_gap_ms {
                gaps.push(g);
            }
            count += 1;
        }
        i += 1;
    }
    assert(all.take(i as int) =~= all);
    let mut r: String = String::new();
    push_left(&mut r, fault, 8);
    assert(r@ =~= left_cell(fault@, 8));
    r.append(" ");
    push_left(&mut r, role, 9);
    r.append(" ");
    push_left(&mut r, decimal_text(count as u64).as_str(), 3);
    r.append(" ");
    push_left(&mut r, spread(&moved).as_str(), 36);
    r.append(" ");
    r.append(spread(&gaps).as_str());
    r.append("\n");
    r
}

fn push_fault(out: &mut String, os: &Vec<FaultOutcome>, fault: &str)
    ensures
        final(out)@ == old(out)@ + fault_text(
            os@,
            fault@,
            distinct_texts(roles_of(of_fault(os@, fault@))),
        ),
{
    let roles: Vec<String> = role_names(os, fault);
    let ghost names = texts(roles@);
    let ghost lead = out@;
    let mut j: usize = 0;
    assert(out@ =~= lead + fault_text(os@, fault@, names.take(0)));
    while j < roles.len()
        invariant
            j <= roles@.len(),
            names == texts(roles@),
            out@ == lead + fault_text(os@, fault@, names.take(j as int)),
        decreases roles@.len() - j,
    {
        proof {
            assert(names.take(j + 1).drop_last() =~= names.take(j as int));
            assert(names.take(j + 1).last() == roles@[j as int]@);
        }
        out.append(group_line(os, fault, roles[j].as_str()).as_str());
        assert(out@ =~= lead + fault_text(os@, fault@, names.take(j + 1)));
        j += 1;
    }
    assert(names.take(j as int) =~= names);
}

fn push_groups(out: &mut String, os: &Vec<FaultOutcome>)
    ensures
        final(out)@ == old(out)@ + groups_text(os@, distinct_texts(faults_of(os@))),
{
    let faults: Vec<String> = fault_names(os);
    let ghost names = texts(faults@);
    let ghost lead = out@;
    let mut i: usize = 0;
    assert(out@ =~= lead + groups_text(os@, names.take(0)));
    while i < faults.len()
        invariant
            i <= faults@.len(),
            names == texts(faults@),
            out@ == lead + groups_text(os@, names.take(i as int)),
        decreases faults@.len() - i,
    {
        proof {
            assert(names.take(i + 1).drop_last() =~= names.take(i as int));
            assert(names.take(i + 1).last() == faults@[i as int]@);
        }
        push_fault(out, os, faults[i].as_str());
        assert(out@ =~= lead + groups_text(os@, names.take(i + 1)));
        i += 1;
    }
    assert(names.take(i as int) =~= names);
}

impl RunSummary {
    pub fn ok(&self) -> (r: bool)
        ensures
            r == self.report.clean(),
    {
        self.report.is_ok()
    }

    /// Deliveries beyond one per (reader, id): with `r` readers per partition
    /// each id is legitimately consumed `r` times, so only what exceeds that
    /// is a retry- or rewind-induced duplicate.
    pub fn extra_duplicates(&self) -> (r: usize)
        requires
            self.report.distinct_consumed * self.readers_per_partition <= usize::MAX,
        ensures
            r == extra_of(self.report, self.readers_per_partition),
    {
        let owed: usize = self.report.distinct_consumed * self.readers_per_partition;
        if self.report.consumed_total > owed {
            self.report.consumed_total - owed
        } else {
            0
        }
    }

    fn totals(&self) -> (r: String)
        requires
            self.report.distinct_consumed * self.readers_per_partition <= usize::MAX,
        ensures
            r@ == totals_text(*self),
    {
        let mut r: String = "availability: ".to_owned();
        push_decimal(&mut r, self.zero_ack_seconds as u64);
        r.append(" of ");
        push_decimal(&mut r, self.load_seconds as u64);
        r.append(" load-seconds had zero acks; ");
        push_decimal(&mut r, self.acked_total);
        r.append(" ids acked in total\n");
        let mut warning: String = String::new();
        assert(warning@ =~= Seq::empty());
        if self.health_incidents > 0 {
            warning = "WARNING: cluster failed to re-form after a heal ".to_owned();
            push_decimal(&mut warning, self.health_incidents as u64);
            warning.append(" time(s); fault injection was cut short (see schedule.log)\n");
        }
        r.append(warning.as_str());
        r.append("duplicates: ");
        push_decimal(&mut r, self.extra_duplicates() as u64);
        r.append(" deliveries beyond one per reader per id (");
        push_decimal(&mut r, self.readers_per_partition as u64);
        r.append(" readers per partition; raw checker count ");
        push_decimal(&mut r, self.report.duplicate_deliveries as u64);
        r.append(" includes the extra readers)\n");
        r
    }

    /// Failover statistics, grouped by (fault, role): `leader moved` and
    /// largest ack gap percentiles in ms.
    pub fn render_stats(&self) -> (r: String)
        requires
            self.report.distinct_consumed * self.readers_per_partition <= usize::MAX,
        ensures
            r@ == stats_text(*self),
    {
        let mut r: String =
            "fault    role      n   leader moved (min/p50/p90/max ms)   largest ack gap in fault window (min/p50/p90/max ms)\n".to_owned();
        push_groups(&mut r, &self.outcomes);
        r.append(self.totals().as_str());
        r
    }
}

/// With as many readers as deliveries of each id, nothing counts as an extra
/// delivery.
pub proof fn law_readers_are_no_duplicates(report: Report, readers: usize)
    requires
        report.consumed_total == report.distinct_consumed * readers,
    ensures
        extra_of(report, readers) == 0,
{
}

} // verus!
