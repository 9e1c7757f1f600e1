//! The cluster under test, as the harness is allowed to see it.
//!
//! Everything here is client-observable on purpose. Leadership is read through
//! the target's *metadata API*, never from server internals, so "the leader
//! changed at t1" means the same thing for replog and for a Kafka-API system
//! and the failover split (detection + election vs. client recovery) is
//! comparable across them.

use crate::search::{pieces, split_on, trim, trimmed};
use crate::text::{char_rows, chars_of, quoted, quoted_text, same_text, string_of};
use vstd::prelude::*;
use vstd::string::*;

verus! {

/// A fault the backend can apply to one broker. Sequential, one at a time.
#[derive(Clone, Copy, Debug, PartialEq, Eq, Hash, Structural)]
pub enum Fault {
    /// SIGKILL the broker process; heal = restart on the same data.
    Kill,
    /// Freeze the process (cgroup freezer / SIGSTOP): sockets stay open,
    /// nothing progresses. Only timeouts can notice — TCP never resets.
    Pause,
    /// Disconnect from the peers network only. Clients still reach the
    /// broker; its peers and the control plane lose it: a live zombie leader.
    Isolate,
}

/// The fault of a name.
pub open spec fn fault_of(s: Seq<char>) -> Result<Fault, Seq<char>> {
    let t = trimmed(s);
    if t == "kill"@ {
        Ok(Fault::Kill)
    } else if t == "pause"@ {
        Ok(Fault::Pause)
    } else if t == "isolate"@ {
        Ok(Fault::Isolate)
    } else {
        Err("unknown fault "@ + quoted_text(t) + " (kill|pause|isolate)"@)
    }
}

/// The faults that the pieces of a list name, in order; empty pieces are passed
/// over. The first piece that names none is the error.
pub open spec fn faults_in(ps: Seq<Seq<char>>) -> Result<Seq<Fault>, Seq<char>>
    decreases ps.len(),
{
    if ps.len() == 0 {
        Ok(Seq::empty())
    } else {
        match faults_in(ps.drop_last()) {
            Err(text) => Err(text),
            Ok(fs) => if ps.last().len() == 0 {
                Ok(fs)
            } else {
                match fault_of(ps.last()) {
                    Ok(f) => Ok(fs.push(f)),
                    Err(text) => Err(text),
                }
            },
        }
    }
}

/// What a list of faults says.
pub open spec fn fault_list(s: Seq<char>) -> Result<Seq<Fault>, Seq<char>> {
    match faults_in(pieces(s, ',')) {
        Err(text) => Err(text),
        Ok(fs) => if fs.len() == 0 {
            Err("fault list is empty"@)
        } else {
            Ok(fs)
        },
    }
}

proof fn lemma_faults_error(ps: Seq<Seq<char>>, n: int)
    requires
        0 <= n <= ps.len(),
        faults_in(ps.take(n)) is Err,
    ensures
        faults_in(ps) == faults_in(ps.take(n)),
    decreases ps.len(),
{
    if n < ps.len() {
        assert(ps.drop_last().take(n) =~= ps.take(n));
        lemma_faults_error(ps.drop_last(), n);
    } else {
        assert(ps.take(n) =~= ps);
    }
}

impl Fault {
    /// Every fault there is.
    pub fn all() -> (r: [Fault; 3])
        ensures
            r@ == seq![Fault::Kill, Fault::Pause, Fault::Isolate],
    {
        let r: [Fault; 3] = [Fault::Kill, Fault::Pause, Fault::Isolate];
        assert(r@ =~= seq![Fault::Kill, Fault::Pause, Fault::Isolate]);
        r
    }

    pub open spec fn label(self) -> Seq<char> {
        match self {
            Fault::Kill => "kill"@,
            Fault::Pause => "pause"@,
            Fault::Isolate => "isolate"@,
        }
    }

    pub fn name(self) -> (r: &'static str)
        ensures
            r@ == self.label(),
    {
        match self {
            Fault::Kill => "kill",
            Fault::Pause => "pause",
            Fault::Isolate => "isolate",
        }
    }

    pub fn parse(s: &str) -> (r: Result<Fault, String>)
        ensures
            match fault_of(s@) {
                Ok(f) => r == Ok::<Fault, String>(f),
                Err(text) => r is Err && r->Err_0@ == text,
            },
    {
        let chars: Vec<char> = chars_of(s);
        let body: Vec<char> = trim(chars.as_slice());
        let t: String = string_of(body.as_slice());
        if same_text(t.as_str(), "kill") {
            return Ok(Fault::Kill);
        }
        if same_text(t.as_str(), "pause") {
            return Ok(Fault::Pause);
        }
        if same_text(t.as_str(), "isolate") {
            return Ok(Fault::Isolate);
        }
        let mut text: String = "unknown fault ".to_owned();
        text.append(quoted(t.as_str()).as_str());
        text.append(" (kill|pause|isolate)");
        Err(text)
    }

    /// `"kill,pause,isolate"` → the list, in order, duplicates allowed (they
    /// weight the draw).
    pub fn parse_list(s: &str) -> (r: Result<Vec<Fault>, String>)
        ensures
            match fault_list(s@) {
                Ok(fs) => r is Ok && r->Ok_0@ == fs,
                Err(text) => r is Err && r->Err_0@ == text,
            },
    {
        let chars: Vec<char> = chars_of(s);
        let parts: Vec<Vec<char>> = split_on(chars.as_slice(), ',');
        let ghost ps = char_rows(parts@);
        let mut list: Vec<Fault> = Vec::new();
        let mut i: usize = 0;
        assert(ps.take(0) =~= Seq::empty());
        while i < parts.len()
            invariant
                i <= parts@.len(),
                ps == char_rows(parts@),
                ps == pieces(s@, ','),
                faults_in(ps.take(i as int)) == Ok::<Seq<Fault>, Seq<char>>(list@),
            decreases parts@.len() - i,
        {
            proof {
                assert(ps.take(i + 1).drop_last() =~= ps.take(i as int));
                assert(ps.take(i + 1).last() == parts@[i as int]@);
            }
            if parts[i].len() > 0 {
                let piece: String = string_of(parts[i].as_slice());
                match Fault::parse(piece.as_str()) {
                    Ok(f) => {
                        list.push(f);
                    },
                    Err(text) => {
                        proof {
                            lemma_faults_error(ps, i + 1);
                        }
                        return Err(text);
                    },
                }
            }
            i += 1;
        }
        assert(ps.take(i as int) =~= ps);
        if list.len() == 0 {
            return Err("fault list is empty".to_owned());
        }
        Ok(list)
    }
}

/// A fault's name names it.
pub proof fn law_fault_named(f: Fault)
    ensures
        fault_of(f.label()) == Ok::<Fault, Seq<char>>(f),
{
    reveal_strlit("kill");
    reveal_strlit("pause");
    reveal_strlit("isolate");
    let s = f.label();
    assert(trimmed(s) == s) by {
        assert(!crate::text::is_space(s[0]));
        assert(!crate::text::is_space(s.last()));
    }
    assert("kill"@[0] != "pause"@[0]);
    assert("kill"@[0] != "isolate"@[0]);
    assert("pause"@[0] != "isolate"@[0]);
}

/// What the schedule needs to know of a cluster. Broker `i` is an index into
/// the target's fixed broker list; leaders are reported in the same index space
/// (`-1` = no leader / unknown).
pub trait FaultTarget {
    /// The names of the brokers.
    spec fn names(&self) -> Seq<Seq<char>>;

    /// The client-facing addresses of the brokers.
    spec fn addresses(&self) -> Seq<Seq<char>>;

    fn broker_count(&self) -> (r: usize)
        ensures
            r == self.addresses().len(),
    ;

    fn broker_name(&self, i: usize) -> (r: String)
        requires
            i < self.names().len(),
        ensures
            r@ == self.names()[i as int],
    ;

    /// Client-facing address of broker `i`, for probing the victim directly.
    fn client_addr(&self, i: usize) -> (r: String)
        requires
            i < self.addresses().len(),
        ensures
            r@ == self.addresses()[i as int],
    ;
}

/// How many healthy reads came in a row. Health must hold on two consecutive
/// reads: right after a kill a cluster can still report the picture before the
/// fault, and a single green read would let the next fault land on a cluster
/// that has not actually re-formed.
pub struct HealthStreak {
    reads: u8,
}

impl View for HealthStreak {
    type V = int;

    closed spec fn view(&self) -> int {
        self.reads as int
    }
}

/// The streak after another read, counted up to two.
pub open spec fn streak_after(streak: int, healthy: bool) -> int {
    if !healthy {
        0
    } else if streak >= 1 {
        2
    } else {
        1
    }
}

impl HealthStreak {
    pub fn new() -> (r: Self)
        ensures
            r@ == 0,
    {
        HealthStreak { reads: 0 }
    }

    /// Takes a read; whether the cluster counts as healthy.
    pub fn read(&mut self, healthy: bool) -> (r: bool)
        ensures
            final(self)@ == streak_after(old(self)@, healthy),
            r == (final(self)@ >= 2),
    {
        self.reads = if !healthy {
            0
        } else if self.reads >= 1 {
            2
        } else {
            1
        };
        self.reads >= 2
    }
}

/// A cluster counts as healthy only after two healthy reads in a row.
pub proof fn law_two_healthy_reads(streak: int, first: bool, second: bool)
    requires
        0 <= streak,
    ensures
        streak_after(streak_after(streak, first), second) >= 2 <==> first && second,
{
}

/// Whether every partition has a leader.
pub fn all_led(leaders: &Vec<i32>) -> (r: bool)
    ensures
        r == forall|p: int| 0 <= p < leaders@.len() ==> #[trigger] leaders@[p] >= 0,
{
    let mut p: usize = 0;
    while p < leaders.len()
        invariant
            p <= leaders@.len(),
            forall|q: int| 0 <= q < p ==> #[trigger] leaders@[q] >= 0,
        decreases leaders@.len() - p,
    {
        if leaders[p] < 0 {
            return false;
        }
        p += 1;
    }
    true
}

/// What one broker says of the leaders: nothing where it did not answer.
pub open spec fn says(view: Option<Vec<i32>>, p: int, leader: i32) -> bool {
    view matches Some(v) && p < v@.len() && v@[p] == leader
}

/// How many of the first `n` brokers name a leader.
pub open spec fn votes(views: Seq<Option<Vec<i32>>>, n: int, p: int, leader: i32) -> nat
    decreases n,
{
    if n <= 0 {
        0
    } else {
        votes(views, n - 1, p, leader) + if says(views[n - 1], p, leader) {
            1nat
        } else {
            0
        }
    }
}

/// Whether a strict majority of *all* brokers (answering or not) names a
/// leader.
pub open spec fn carries(views: Seq<Option<Vec<i32>>>, p: int, leader: i32) -> bool {
    leader >= 0 && votes(views, views.len() as int, p, leader) * 2 > views.len()
}

/// No two leaders of a partition have a majority.
pub proof fn law_one_majority(views: Seq<Option<Vec<i32>>>, p: int, a: i32, b: i32)
    requires
        p >= 0,
        carries(views, p, a),
        carries(views, p, b),
    ensures
        a == b,
{
    if a != b {
        lemma_votes_add(views, views.len() as int, p, a, b);
    }
}

proof fn lemma_votes_add(views: Seq<Option<Vec<i32>>>, n: int, p: int, a: i32, b: i32)
    requires
        0 <= n <= views.len(),
        a != b,
    ensures
        votes(views, n, p, a) + votes(views, n, p, b) <= n,
    decreases n,
{
    if n > 0 {
        lemma_votes_add(views, n - 1, p, a, b);
    }
}

proof fn lemma_votes_bound(views: Seq<Option<Vec<i32>>>, n: int, p: int, a: i32)
    requires
        0 <= n <= views.len(),
    ensures
        votes(views, n, p, a) <= n,
    decreases n,
{
    if n > 0 {
        lemma_votes_bound(views, n - 1, p, a);
    }
}

proof fn lemma_voter(views: Seq<Option<Vec<i32>>>, n: int, p: int, leader: i32) -> (i: int)
    requires
        0 <= n <= views.len(),
        votes(views, n, p, leader) > 0,
    ensures
        0 <= i < n,
        says(views[i], p, leader),
    decreases n,
{
    if n <= 0 {
        0
    } else if says(views[n - 1], p, leader) {
        n - 1
    } else {
        lemma_voter(views, n - 1, p, leader)
    }
}

fn count_votes(views: &Vec<Option<Vec<i32>>>, p: usize, leader: i32) -> (n: usize)
    ensures
        n == votes(views@, views@.len() as int, p as int, leader),
{
    let mut n: usize = 0;
    let mut i: usize = 0;
    while i < views.len()
        invariant
            i <= views@.len(),
            n <= i,
            n == votes(views@, i as int, p as int, leader),
        decreases views@.len() - i,
    {
        if let Some(v) = &views[i] {
            if p < v.len() && v[p] == leader {
                n += 1;
            }
        }
        i += 1;
    }
    n
}

/// The leader of one partition that a majority names; -1 where none has one.
fn majority_of(views: &Vec<Option<Vec<i32>>>, p: usize) -> (r: i32)
    ensures
        r == -1 ==> forall|l: i32| !carries(views@, p as int, l),
        r != -1 ==> carries(views@, p as int, r),
{
    let n: usize = views.len();
    let mut i: usize = 0;
    while i < n
        invariant
            i <= n,
            n == views@.len(),
            forall|j: int, l: i32|
                0 <= j < i && #[trigger] says(views@[j], p as int, l) ==> !carries(
                    views@,
                    p as int,
                    l,
                ),
        decreases n - i,
    {
        if let Some(v) = &views[i] {
            if p < v.len() {
                let l: i32 = v[p];
                if l >= 0 {
                    let c: usize = count_votes(views, p, l);
                    proof {
                        lemma_votes_bound(views@, n as int, p as int, l);
                    }
                    if c > n - c {
                        return l;
                    }
                }
            }
        }
        i += 1;
    }
    proof {
        assert forall|l: i32| !carries(views@, p as int, l) by {
            if carries(views@, p as int, l) {
                let j = lemma_voter(views@, n as int, p as int, l);
                assert(says(views@[j], p as int, l));
            }
        }
    }
    -1
}

/// The cluster's opinion: per partition, the leader named by a strict
/// majority of *all* brokers (answering or not); `-1` when there is none.
/// A lone zombie's stale claim can never win this vote, and a client that
/// refreshes from any two live brokers would learn the same answer.
pub fn majority(views: &Vec<Option<Vec<i32>>>, partitions: u32) -> (r: Vec<i32>)
    ensures
        r@.len() == partitions,
        forall|p: int|
            0 <= p < partitions ==> {
                &&& #[trigger] r@[p] == -1 ==> forall|l: i32| !carries(views@, p, l)
                &&& r@[p] != -1 ==> carries(views@, p, r@[p])
            },
{
    let mut r: Vec<i32> = Vec::new();
    let mut p: u32 = 0;
    while p < partitions
        invariant
            p <= partitions,
            r@.len() == p,
            forall|q: int|
                0 <= q < p ==> {
                    &&& #[trigger] r@[q] == -1 ==> forall|l: i32| !carries(views@, q, l)
                    &&& r@[q] != -1 ==> carries(views@, q, r@[q])
                },
        decreases partitions - p,
    {
        let l: i32 = majority_of(views, p as usize);
        r.push(l);
        p += 1;
    }
    r
}

} // verus!
