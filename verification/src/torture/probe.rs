//! The fault probe: prove the fault backend does what it claims before any
//! workload trusts it.
//!
//! For each fault, applied to the *current leader* of a replicated
//! partition, the probe checks the effect a client can observe — leadership
//! moves to another broker within a budget, the victim's client port behaves
//! as the fault predicts (dead / frozen / still serving), and the cluster is
//! fully replicated again after the heal — and prints one row per fault. A
//! harness whose faults are silently no-ops produces the most reassuring
//! zero-violation verdicts of all; this table is what stands between that
//! and the numbers we report.

use super::cluster::{carries, law_one_majority, majority, Fault};
use crate::order::texts;
use crate::text::{
    decimal, decimal_text, left_cell, push_decimal, push_left, push_right, push_signed, right_cell,
    signed_decimal, signed_text,
};
use vstd::prelude::*;
use vstd::string::*;

verus! {

#[derive(Debug)]
pub struct ProbeRow {
    pub fault: Fault,
    pub victim: usize,
    /// Time until the metadata API (asked of any live broker) showed a
    /// different leader; None = never within budget.
    pub leader_moved_ms: Option<u64>,
    pub new_leader: i32,
    /// TCP connect to the victim's client port succeeded (~1 s timeout).
    pub victim_connect: bool,
    /// The victim answered a metadata request itself (~0.7 s timeout).
    pub victim_metadata: Option<Vec<i32>>,
    /// isolate only: how long the victim kept reporting *itself* as leader
    /// after peers had elected around it (None = not measured / never did).
    pub zombie_claim_ms: Option<u64>,
    pub healed_ms: Option<u64>,
    pub pass: bool,
    pub notes: Vec<String>,
}

/// How long a fault may take to show. A sanity bound, not a pass/fail target: a
/// fault that produces no leader change inside this window did not do what it
/// claims. A follower election after a half-open partition (pause/isolate) can
/// run pre-vote rounds with multi-second RPC timeouts, so the bound is generous.
pub open spec fn budget_of(detect_ms: u64) -> u64 {
    if 5 * detect_ms > 15_000 {
        (5 * detect_ms) as u64
    } else {
        15_000
    }
}

/// How long a fault may take to show.
pub fn budget_ms(detect_ms: u64) -> (r: u64)
    requires
        5 * detect_ms <= u64::MAX,
    ensures
        r == budget_of(detect_ms),
{
    let b: u64 = 5 * detect_ms;
    if b > 15_000 {
        b
    } else {
        15_000
    }
}

/// Whether leadership has moved away from the victim.
pub fn has_moved(leader: i32, victim: usize) -> (r: bool)
    ensures
        r == (leader >= 0 && leader as int != victim),
{
    leader >= 0 && leader as u64 != victim as u64
}

/// Whether the victim still claims the lead.
pub fn still_claims(view: &Vec<i32>, victim: usize) -> (r: bool)
    ensures
        r == claims(view@, victim),
{
    view.len() > 0 && view[0] >= 0 && view[0] as u64 == victim as u64
}

/// Whether the victim's port behaves as the fault predicts: a killed or frozen
/// broker does not answer, an isolated one still does.
pub open spec fn behaves(fault: Fault, connects: bool, answers: bool) -> bool {
    match fault {
        Fault::Isolate => connects && answers,
        _ => !answers,
    }
}

/// What is wrong with the port of a victim that does not behave as predicted.
pub open spec fn port_fault(fault: Fault) -> Seq<char> {
    if fault == Fault::Isolate {
        "expected the isolated broker to still answer clients"@
    } else {
        "expected the victim to stop answering metadata"@
    }
}

/// The judgement of one fault.
pub struct Verdict {
    pub pass: bool,
    /// What is wrong with the victim's port, if something is.
    pub note: Option<&'static str>,
}

/// Judges a fault: it passes if leadership moved, the victim behaved as
/// predicted, and the cluster healed.
pub fn judge(fault: Fault, moved: bool, connects: bool, answers: bool, healed: bool) -> (r: Verdict)
    ensures
        r.pass == (moved && behaves(fault, connects, answers) && healed),
        behaves(fault, connects, answers) ==> r.note is None,
        !behaves(fault, connects, answers) ==> r.note is Some && r.note->0@ == port_fault(fault),
{
    let expected: bool = match fault {
        Fault::Isolate => connects && answers,
        _ => !answers,
    };
    let note: Option<&'static str> = if expected {
        None
    } else if fault == Fault::Isolate {
        Some("expected the isolated broker to still answer clients")
    } else {
        Some("expected the victim to stop answering metadata")
    };
    Verdict { pass: moved && expected && healed, note }
}

/// A time in a cell, or what stands for none.
pub open spec fn time_text(v: Option<u64>, none: Seq<char>) -> Seq<char> {
    match v {
        Some(m) => right_cell(decimal(m as nat), 6) + " ms"@,
        None => none,
    }
}

fn time_cell(v: Option<u64>, none: &str) -> (r: String)
    ensures
        r@ == time_text(v, none@),
{
    match v {
        Some(m) => {
            let mut r: String = String::new();
            push_right(&mut r, decimal_text(m).as_str(), 6);
            r.append(" ms");
            assert(r@ =~= time_text(v, none@));
            r
        },
        None => none.to_owned(),
    }
}

/// How the victim's port behaved.
pub open spec fn port_text(r: ProbeRow) -> Seq<char> {
    if !r.victim_connect {
        "refused"@
    } else {
        match r.victim_metadata {
            Some(v) => "serving (leader="@ + signed_decimal(v@[0] as int) + ")"@,
            None => "connects, no answer"@,
        }
    }
}

fn port_cell(row: &ProbeRow) -> (r: String)
    requires
        row.victim_metadata matches Some(v) ==> v@.len() > 0,
    ensures
        r@ == port_text(*row),
{
    if !row.victim_connect {
        return "refused".to_owned();
    }
    match &row.victim_metadata {
        Some(v) => {
            let mut r: String = "serving (leader=".to_owned();
            push_signed(&mut r, v[0] as i64);
            r.append(")");
            r
        },
        None => "connects, no answer".to_owned(),
    }
}

/// The notes under a row.
pub open spec fn notes_text(notes: Seq<String>) -> Seq<char>
    decreases notes.len(),
{
    if notes.len() == 0 {
        Seq::empty()
    } else {
        notes_text(notes.drop_last()) + "         note: "@ + notes.last()@ + "\n"@
    }
}

/// The cells of a row.
pub open spec fn cells_text(r: ProbeRow) -> Seq<char> {
    left_cell(r.fault.label(), 8) + " "@ + left_cell(decimal(r.victim as nat), 7) + " "@
        + left_cell(time_text(r.leader_moved_ms, "  never  "@), 14) + " "@ + left_cell(
        signed_decimal(r.new_leader as int),
        4,
    ) + " "@ + left_cell(port_text(r), 20) + " "@ + left_cell(
        time_text(r.zombie_claim_ms, "    -    "@),
        13,
    ) + " "@ + left_cell(time_text(r.healed_ms, "  never  "@), 9) + " "@ + (if r.pass {
        "PASS"@
    } else {
        "FAIL"@
    })
}

/// A row, and the notes under it.
pub open spec fn row_text(r: ProbeRow) -> Seq<char> {
    cells_text(r) + "\n"@ + notes_text(r.notes@)
}

pub open spec fn rows_text(rows: Seq<ProbeRow>) -> Seq<char>
    decreases rows.len(),
{
    if rows.len() == 0 {
        Seq::empty()
    } else {
        rows_text(rows.drop_last()) + row_text(rows.last())
    }
}

pub open spec fn probe_text(rows: Seq<ProbeRow>, detect_ms: u64) -> Seq<char> {
    "fault    victim  leader moved   new  victim port          zombie claim  healed    verdict   (detect timeout "@
        + decimal(detect_ms as nat) + " ms, budget "@ + decimal(budget_of(detect_ms) as nat)
        + " ms)\n"@ + rows_text(rows)
}

fn row_cells(r: &ProbeRow) -> (s: String)
    requires
        r.victim_metadata matches Some(v) ==> v@.len() > 0,
    ensures
        s@ == cells_text(*r),
{
    let mut s: String = String::new();
    push_left(&mut s, r.fault.name(), 8);
    assert(s@ =~= left_cell(r.fault.label(), 8));
    s.append(" ");
    push_left(&mut s, decimal_text(r.victim as u64).as_str(), 7);
    s.append(" ");
    push_left(&mut s, time_cell(r.leader_moved_ms, "  never  ").as_str(), 14);
    s.append(" ");
    push_left(&mut s, signed_text(r.new_leader as i64).as_str(), 4);
    s.append(" ");
    push_left(&mut s, port_cell(r).as_str(), 20);
    s.append(" ");
    push_left(&mut s, time_cell(r.zombie_claim_ms, "    -    ").as_str(), 13);
    s.append(" ");
    push_left(&mut s, time_cell(r.healed_ms, "  never  ").as_str(), 9);
    s.append(" ");
    if r.pass {
        s.append("PASS");
    } else {
        s.append("FAIL");
    }
    s
}

fn push_notes(s: &mut String, notes: &Vec<String>)
    ensures
        final(s)@ == old(s)@ + notes_text(notes@),
{
    let ghost lead = s@;
    let ghost ns = notes@;
    let mut i: usize = 0;
    assert(s@ =~= lead + notes_text(ns.take(0)));
    while i < notes.len()
        invariant
            i <= notes@.len(),
            ns == notes@,
            s@ == lead + notes_text(ns.take(i as int)),
        decreases notes@.len() - i,
    {
        proof {
            assert(ns.take(i + 1).drop_last() =~= ns.take(i as int));
            assert(ns.take(i + 1).last() == notes@[i as int]);
        }
        s.append("         note: ");
        s.append(notes[i].as_str());
        s.append("\n");
        assert(s@ =~= lead + notes_text(ns.take(i + 1)));
        i += 1;
    }
    assert(ns.take(i as int) =~= ns);
}

fn push_row(s: &mut String, r: &ProbeRow)
    requires
        r.victim_metadata matches Some(v) ==> v@.len() > 0,
    ensures
        final(s)@ == old(s)@ + row_text(*r),
{
    let mut row: String = row_cells(r);
    row.append("\n");
    push_notes(&mut row, &r.notes);
    s.append(row.as_str());
}

/// The table of a probe.
pub fn render(rows: &Vec<ProbeRow>, detect_ms: u64) -> (s: String)
    requires
        5 * detect_ms <= u64::MAX,
        forall|i: int|
            0 <= i < rows@.len() ==> ((#[trigger] rows@[i]).victim_metadata matches Some(v)
                ==> v@.len() > 0),
    ensures
        s@ == probe_text(rows@, detect_ms),
{
    let mut s: String =
        "fault    victim  leader moved   new  victim port          zombie claim  healed    verdict   (detect timeout ".to_owned();
    push_decimal(&mut s, detect_ms);
    s.append(" ms, budget ");
    push_decimal(&mut s, budget_ms(detect_ms));
    s.append(" ms)\n");
    let ghost head = s@;
    let ghost rs = rows@;
    let mut i: usize = 0;
    assert(s@ =~= head + rows_text(rs.take(0)));
    while i < rows.len()
        invariant
            i <= rows@.len(),
            rs == rows@,
            forall|i: int|
                0 <= i < rows@.len() ==> ((#[trigger] rows@[i]).victim_metadata matches Some(v)
                    ==> v@.len() > 0),
            s@ == head + rows_text(rs.take(i as int)),
        decreases rows@.len() - i,
    {
        proof {
            assert(rs.take(i + 1).drop_last() =~= rs.take(i as int));
            assert(rs.take(i + 1).last() == rows@[i as int]);
        }
        push_row(&mut s, &rows[i]);
        assert(s@ =~= head + rows_text(rs.take(i + 1)));
        i += 1;
    }
    assert(rs.take(i as int) =~= rs);
    s
}

/// What the brokers said when leadership had moved: a note.
pub open spec fn views_text(views: Seq<Option<Vec<i32>>>, n: int) -> Seq<char>
    decreases n,
{
    if n <= 0 {
        Seq::empty()
    } else {
        let k = n - 1;
        views_text(views, k) + (if k == 0 {
            Seq::empty()
        } else {
            " "@
        }) + "b"@ + decimal(k as nat) + "="@ + match views[k] {
            Some(v) => signed_decimal(v@[0] as int),
            None => "?"@,
        }
    }
}

/// Notes what the brokers said when leadership had moved.
pub fn views_note(views: &Vec<Option<Vec<i32>>>) -> (r: String)
    requires
        forall|i: int|
            0 <= i < views@.len() ==> (#[trigger] views@[i] matches Some(v) ==> v@.len() > 0),
    ensures
        r@ == moved_note(views@),
{
    let mut r: String = "views at move: ".to_owned();
    let mut i: usize = 0;
    assert(r@ =~= "views at move: "@ + views_text(views@, 0));
    while i < views.len()
        invariant
            i <= views@.len(),
            forall|i: int|
                0 <= i < views@.len() ==> (#[trigger] views@[i] matches Some(v) ==> v@.len() > 0),
            r@ == "views at move: "@ + views_text(views@, i as int),
        decreases views@.len() - i,
    {
        if i > 0 {
            r.append(" ");
        }
        r.append("b");
        push_decimal(&mut r, i as u64);
        r.append("=");
        match &views[i] {
            Some(v) => {
                assert(views@[i as int] is Some);
                push_signed(&mut r, v[0] as i64);
            },
            None => {
                r.append("?");
            },
        }
        assert(r@ =~= "views at move: "@ + views_text(views@, i + 1));
        i += 1;
    }
    r
}

/// One fault's probe under way.
pub struct Probe {
    fault: Fault,
    victim: usize,
    budget_ms: u64,
    moved_ms: Option<u64>,
    new_leader: i32,
    connects: bool,
    metadata: Option<Vec<i32>>,
    claim_ms: Option<u64>,
    notes: Vec<String>,
}

/// What a probe has found so far.
pub ghost struct Findings {
    pub fault: Fault,
    pub victim: usize,
    pub budget_ms: u64,
    pub moved_ms: Option<u64>,
    pub new_leader: i32,
    pub connects: bool,
    pub metadata: Option<Vec<i32>>,
    pub claim_ms: Option<u64>,
    pub notes: Seq<Seq<char>>,
}

impl View for Probe {
    type V = Findings;

    closed spec fn view(&self) -> Findings {
        Findings {
            fault: self.fault,
            victim: self.victim,
            budget_ms: self.budget_ms,
            moved_ms: self.moved_ms,
            new_leader: self.new_leader,
            connects: self.connects,
            metadata: self.metadata,
            claim_ms: self.claim_ms,
            notes: texts(self.notes@),
        }
    }
}

/// Most brokers name `l`, who is not the victim, as the leader.
pub open spec fn moved_to(views: Seq<Option<Vec<i32>>>, victim: usize, l: i32) -> bool {
    carries(views, 0, l) && l >= 0 && l as int != victim
}

pub open spec fn moved_note(views: Seq<Option<Vec<i32>>>) -> Seq<char> {
    "views at move: "@ + views_text(views, views.len() as int)
}

pub open spec fn gave_up_note(elapsed_ms: u64, leader: i32) -> Seq<char> {
    "victim's view after "@ + decimal(elapsed_ms as nat) + " ms: leader="@ + signed_decimal(
        leader as int,
    )
}

pub open spec fn silent_note(elapsed_ms: u64, error: Seq<char>) -> Seq<char> {
    "victim stopped answering after "@ + decimal(elapsed_ms as nat) + " ms: "@ + error
}

pub open spec fn exhausted_note(elapsed_ms: u64) -> Seq<char> {
    "victim still claims leadership "@ + decimal(elapsed_ms as nat)
        + " ms after isolate (budget exhausted)"@
}

/// Whether a view names the victim as the leader.
pub open spec fn claims(view: Seq<i32>, victim: usize) -> bool {
    view.len() > 0 && view[0] >= 0 && view[0] as int == victim
}

/// What an isolated victim's answer adds to the findings, `elapsed_ms` after
/// the fault and `watched_ms` after its port was first asked, and whether that
/// ends the watch: the victim named another leader or did not answer, or it
/// still claims the lead when the budget is used up.
pub open spec fn heard_claim(
    f: Findings,
    view: std::result::Result<Vec<i32>, String>,
    elapsed_ms: u64,
    watched_ms: u64,
) -> (Findings, bool) {
    match view {
        Ok(v) => if !claims(v@, f.victim) {
            (
                Findings {
                    claim_ms: Some(elapsed_ms),
                    notes: f.notes.push(gave_up_note(elapsed_ms, v@[0])),
                    ..f
                },
                true,
            )
        } else if watched_ms > f.budget_ms {
            (Findings { notes: f.notes.push(exhausted_note(elapsed_ms)), ..f }, true)
        } else {
            (f, false)
        },
        Err(e) => (
            Findings {
                claim_ms: Some(elapsed_ms),
                notes: f.notes.push(silent_note(elapsed_ms, e@)),
                ..f
            },
            true,
        ),
    }
}

/// The notes of a probe that ended with this heal: those on the way, then why it
/// did not heal, then what was wrong with the victim's port.
pub open spec fn all_notes(f: Findings, healed: std::result::Result<u64, String>) -> Seq<Seq<char>> {
    let ns = match healed {
        Ok(_) => f.notes,
        Err(e) => f.notes.push("heal: "@ + e@),
    };
    if behaves(f.fault, f.connects, f.metadata is Some) {
        ns
    } else {
        ns.push(port_fault(f.fault))
    }
}

impl Probe {
    /// A probe of a fault that was just applied to `victim`.
    pub fn new(fault: Fault, victim: usize, detect_ms: u64) -> (r: Probe)
        requires
            5 * detect_ms <= u64::MAX,
        ensures
            r@ == (Findings {
                fault,
                victim,
                budget_ms: budget_of(detect_ms),
                moved_ms: None,
                new_leader: -1i32,
                connects: false,
                metadata: None,
                claim_ms: None,
                notes: Seq::empty(),
            }),
    {
        let r = Probe {
            fault,
            victim,
            budget_ms: budget_ms(detect_ms),
            moved_ms: None,
            new_leader: -1,
            connects: false,
            metadata: None,
            claim_ms: None,
            notes: Vec::new(),
        };
        assert(r@.notes =~= Seq::empty());
        r
    }

    /// Whether to ask the brokers (again) who leads: leadership has not moved,
    /// and the budget is not used up.
    pub fn awaits_move(&self, elapsed_ms: u64) -> (r: bool)
        ensures
            r == (self@.moved_ms is None && elapsed_ms < self@.budget_ms),
    {
        self.moved_ms.is_none() && elapsed_ms < self.budget_ms
    }

    fn note(&mut self, text: String)
        ensures
            final(self)@ == (Findings { notes: old(self)@.notes.push(text@), ..old(self)@ }),
    {
        let ghost ns = self@.notes;
        let ghost t = text@;
        self.notes.push(text);
        assert(self@.notes =~= ns.push(t));
    }

    /// Takes in what every broker answered, `elapsed_ms` after the fault.
    pub fn saw_views(&mut self, views: &Vec<Option<Vec<i32>>>, elapsed_ms: u64)
        requires
            forall|i: int|
                0 <= i < views@.len() ==> (#[trigger] views@[i] matches Some(v) ==> v@.len() > 0),
        ensures
            forall|l: i32| #[trigger]
                moved_to(views@, old(self)@.victim, l) ==> final(self)@ == (Findings {
                    moved_ms: Some(elapsed_ms),
                    new_leader: l,
                    notes: old(self)@.notes.push(moved_note(views@)),
                    ..old(self)@
                }),
            (forall|l: i32| !#[trigger] moved_to(views@, old(self)@.victim, l)) ==> final(self)@
                == old(self)@,
    {
        let ghost victim = self@.victim;
        let leader: i32 = majority(views, 1)[0];
        proof {
            assert forall|l: i32| #[trigger] moved_to(views@, victim, l) implies l == leader by {
                law_one_majority(views@, 0, l, leader);
            }
        }
        if has_moved(leader, self.victim) {
            assert(moved_to(views@, victim, leader));
            self.moved_ms = Some(elapsed_ms);
            self.new_leader = leader;
            let text: String = views_note(views);
            self.note(text);
        }
    }

    /// Takes in how the victim's own port behaves.
    pub fn saw_port(&mut self, connects: bool, metadata: Option<Vec<i32>>)
        ensures
            final(self)@ == (Findings { connects, metadata, ..old(self)@ }),
    {
        self.connects = connects;
        self.metadata = metadata;
    }

    /// Whether to watch how long the victim keeps claiming the lead: an isolated
    /// one, around whom the others elected a leader.
    pub fn watches_claim(&self) -> (r: bool)
        ensures
            r == (self@.fault == Fault::Isolate && self@.moved_ms is Some),
    {
        self.fault == Fault::Isolate && self.moved_ms.is_some()
    }

    /// Takes in an isolated victim's answer; returns whether the watch is over.
    pub fn saw_claim(
        &mut self,
        view: std::result::Result<Vec<i32>, String>,
        elapsed_ms: u64,
        watched_ms: u64,
    ) -> (over: bool)
        requires
            view matches Ok(v) ==> v@.len() > 0,
        ensures
            (final(self)@, over) == heard_claim(old(self)@, view, elapsed_ms, watched_ms),
    {
        match view {
            Ok(v) => {
                if !still_claims(&v, self.victim) {
                    self.claim_ms = Some(elapsed_ms);
                    let mut text: String = "victim's view after ".to_owned();
                    push_decimal(&mut text, elapsed_ms);
                    text.append(" ms: leader=");
                    push_signed(&mut text, v[0] as i64);
                    self.note(text);
                    return true;
                }
                if watched_ms > self.budget_ms {
                    let mut text: String = "victim still claims leadership ".to_owned();
                    push_decimal(&mut text, elapsed_ms);
                    text.append(" ms after isolate (budget exhausted)");
                    self.note(text);
                    return true;
                }
                false
            },
            Err(e) => {
                self.claim_ms = Some(elapsed_ms);
                let mut text: String = "victim stopped answering after ".to_owned();
                push_decimal(&mut text, elapsed_ms);
                text.append(" ms: ");
                text.append(e.as_str());
                self.note(text);
                true
            },
        }
    }

    /// The row of a probe whose fault was healed: after so many milliseconds, or
    /// not, with an error.
    pub fn finish(self, healed: std::result::Result<u64, String>) -> (r: ProbeRow)
        ensures
            ({
                let f = self@;
                &&& r.fault == f.fault
                &&& r.victim == f.victim
                &&& r.leader_moved_ms == f.moved_ms
                &&& r.new_leader == f.new_leader
                &&& r.victim_connect == f.connects
                &&& r.victim_metadata == f.metadata
                &&& r.zombie_claim_ms == f.claim_ms
                &&& r.healed_ms == (match healed {
                    Ok(ms) => Some(ms),
                    Err(_) => None,
                })
                &&& r.pass == (f.moved_ms is Some && behaves(
                    f.fault,
                    f.connects,
                    f.metadata is Some,
                ) && healed is Ok)
                &&& texts(r.notes@) == all_notes(f, healed)
            }),
    {
        let mut p: Probe = self;
        let healed_ms: Option<u64> = match healed {
            Ok(ms) => Some(ms),
            Err(e) => {
                let mut text: String = "heal: ".to_owned();
                text.append(e.as_str());
                p.note(text);
                None
            },
        };
        let verdict: Verdict = judge(
            p.fault,
            p.moved_ms.is_some(),
            p.connects,
            p.metadata.is_some(),
            healed_ms.is_some(),
        );
        if let Some(text) = verdict.note {
            p.note(text.to_owned());
        }
        ProbeRow {
            fault: p.fault,
            victim: p.victim,
            leader_moved_ms: p.moved_ms,
            new_leader: p.new_leader,
            victim_connect: p.connects,
            victim_metadata: p.metadata,
            zombie_claim_ms: p.claim_ms,
            healed_ms,
            pass: verdict.pass,
            notes: p.notes,
        }
    }
}

} // verus!
