//! The torture schedule against a cluster of processes: random `kill -9` and
//! control-plane partitions, one at a time, under continuous load.

use super::schedule::delay_of;
use crate::harness::rng::{mix, SplitMix64, GOLDEN};
use crate::harness::leader_of;
use crate::proto::lookup::partition_of;
use crate::proto::meta::ClusterMeta;
use crate::text::{decimal, push_decimal};
use vstd::prelude::*;
use vstd::string::*;

verus! {

/// Chaff ids live in the top half of the id space; contract ids count up
/// from zero. They must never collide.
pub const CHAFF_BASE: u64 = 9_223_372_036_854_775_808;

/// A contract id and a chaff id differ.
pub proof fn law_chaff_apart(id: u64, chaff: u64)
    requires
        id < CHAFF_BASE,
        chaff >= CHAFF_BASE,
    ensures
        id != chaff,
{
}

/// A fault of the torture schedule.
#[derive(Clone, Copy)]
pub struct ProcessFault {
    pub victim: usize,
    pub heal_ms: u64,
    /// Whether the process is killed; otherwise it is cut off from the
    /// controller.
    pub kill: bool,
}

/// Draws the next fault: the victim, the delay to its heal, and which of the two
/// faults it is.
pub fn draw_process_fault(
    rng: &mut SplitMix64,
    brokers: usize,
    min_heal_ms: u64,
    max_heal_ms: u64,
) -> (r: ProcessFault)
    requires
        brokers > 0,
        min_heal_ms < max_heal_ms,
    ensures
        ({
            let s1 = old(rng)@.wrapping_add(GOLDEN);
            let s2 = s1.wrapping_add(GOLDEN);
            let s3 = s2.wrapping_add(GOLDEN);
            &&& final(rng)@ == s3
            &&& r.victim == mix(s1) % brokers as u64
            &&& r.heal_ms == delay_of(min_heal_ms, max_heal_ms, s2)
            &&& r.kill == (mix(s3) % 2 == 0)
        }),
        r.victim < brokers,
        min_heal_ms <= r.heal_ms < max_heal_ms,
{
    let victim: u64 = rng.range(0, brokers as u64);
    let heal_ms: u64 = rng.range(min_heal_ms, max_heal_ms);
    let coin: u64 = rng.range(0, 2);
    ProcessFault { victim: victim as usize, heal_ms, kill: coin == 0 }
}

/// Whether a broker leads one of the first `partitions` partitions of a topic.
pub open spec fn leads_any(
    meta: ClusterMeta,
    topic: Seq<char>,
    partitions: u32,
    broker: usize,
) -> bool {
    exists|p: u32| p < partitions && #[trigger] leader_in(meta, topic, p) == broker
}

/// The leader of a partition; -1 where there is none.
pub open spec fn leader_in(meta: ClusterMeta, topic: Seq<char>, partition: u32) -> int {
    match partition_of(meta, topic, partition) {
        Some(p) => p.leader as int,
        None => -1,
    }
}

/// The role of a broker: whether it leads any partition of a topic.
pub fn process_role(meta: &ClusterMeta, topic: &str, partitions: u32, broker: usize) -> (r:
    &'static str)
    ensures
        r@ == (if leads_any(*meta, topic@, partitions, broker) {
            "leader"@
        } else {
            "follower"@
        }),
{
    let mut p: u32 = 0;
    while p < partitions
        invariant
            p <= partitions,
            forall|q: u32| q < p ==> #[trigger] leader_in(*meta, topic@, q) != broker,
        decreases partitions - p,
    {
        let l: i32 = leader_of(meta, topic, p);
        assert(l == leader_in(*meta, topic@, p));
        if l >= 0 && l as u64 == broker as u64 {
            return "leader";
        }
        p += 1;
    }
    "follower"
}

/// How a fault is announced.
pub open spec fn process_fault_text(f: ProcessFault, role: Seq<char>) -> Seq<char> {
    if f.kill {
        "FAULT kill -9 broker "@ + decimal(f.victim as nat) + " ("@ + role + "), restart in "@
            + decimal(f.heal_ms as nat) + " ms"@
    } else {
        "FAULT partition broker "@ + decimal(f.victim as nat) + " ("@ + role
            + ") from controller, heal in "@ + decimal(f.heal_ms as nat) + " ms"@
    }
}

/// Announces a fault.
pub fn process_fault_message(f: ProcessFault, role: &str) -> (r: String)
    ensures
        r@ == process_fault_text(f, role@),
{
    let mut r: String = if f.kill {
        "FAULT kill -9 broker ".to_owned()
    } else {
        "FAULT partition broker ".to_owned()
    };
    push_decimal(&mut r, f.victim as u64);
    r.append(" (");
    r.append(role);
    if f.kill {
        r.append("), restart in ");
    } else {
        r.append(") from controller, heal in ");
    }
    push_decimal(&mut r, f.heal_ms);
    r.append(" ms");
    r
}

/// Announces a heal.
pub fn process_heal_message(f: ProcessFault) -> (r: String)
    ensures
        r@ == "HEAL broker "@ + decimal(f.victim as nat) + (if f.kill {
            " restarted"@
        } else {
            " link restored"@
        }),
{
    let mut r: String = "HEAL broker ".to_owned();
    push_decimal(&mut r, f.victim as u64);
    if f.kill {
        r.append(" restarted");
    } else {
        r.append(" link restored");
    }
    r
}

} // verus!
