//! What the benchmarks decide: when a cluster is ready to be measured, where
//! its leaders are, and what is sent to them.

use crate::order::texts;
use crate::proto::lookup::{find_topic, topic_from};
use crate::proto::{Acks, ClusterMeta, PartitionMeta, ProduceRecord, Request};
use vstd::prelude::*;
use vstd::string::*;

verus! {

/// The topic that benchmarks write to.
pub const BENCH_TOPIC: &'static str = "bench";

/// A partition with a leader and a full ISR.
pub open spec fn part_ready(p: PartitionMeta, rf: u32) -> bool {
    p.leader >= 0 && p.isr@.len() == rf
}

/// Whether a topic has its partitions, each with a leader and a full ISR.
pub open spec fn topic_ready(meta: ClusterMeta, topic: Seq<char>, partitions: u32, rf: u32) -> bool {
    match topic_from(meta.topics@, topic, 0) {
        None => false,
        Some(t) => {
            let parts = meta.topics@[t].partitions@;
            &&& parts.len() == partitions
            &&& forall|i: int| 0 <= i < parts.len() ==> part_ready(#[trigger] parts[i], rf)
        },
    }
}

/// Whether a topic has its partitions, each with a leader and a full ISR.
pub fn is_topic_ready(meta: &ClusterMeta, topic: &str, partitions: u32, rf: u32) -> (r: bool)
    ensures
        r == topic_ready(*meta, topic@, partitions, rf),
{
    let t: usize = match find_topic(&meta.topics, topic) {
        None => {
            return false;
        },
        Some(t) => t,
    };
    let parts: &Vec<PartitionMeta> = &meta.topics[t].partitions;
    if parts.len() != partitions as usize {
        return false;
    }
    let mut i: usize = 0;
    while i < parts.len()
        invariant
            i <= parts@.len(),
            t < meta.topics@.len(),
            topic_from(meta.topics@, topic@, 0) == Some(t as int),
            parts == meta.topics@[t as int].partitions,
            forall|j: int| 0 <= j < i ==> part_ready(#[trigger] parts@[j], rf),
        decreases parts@.len() - i,
    {
        if parts[i].leader < 0 || parts[i].isr.len() != rf as usize {
            assert(!part_ready(parts@[i as int], rf));
            return false;
        }
        i += 1;
    }
    true
}

/// The address of a broker, from `i` on.
pub open spec fn addr_from(brokers: Seq<(u32, String)>, id: u32, i: int) -> Option<Seq<char>>
    decreases brokers.len() - i,
{
    if i < 0 || i >= brokers.len() {
        None
    } else if brokers[i].0 == id {
        Some(brokers[i].1@)
    } else {
        addr_from(brokers, id, i + 1)
    }
}

/// The address of a broker, as metadata lists it first.
pub fn broker_addr(meta: &ClusterMeta, id: u32) -> (r: Option<String>)
    ensures
        match addr_from(meta.brokers@, id, 0) {
            Some(a) => r is Some && r->0@ == a,
            None => r is None,
        },
{
    let mut i: usize = 0;
    while i < meta.brokers.len()
        invariant
            i <= meta.brokers@.len(),
            addr_from(meta.brokers@, id, i as int) == addr_from(meta.brokers@, id, 0),
        decreases meta.brokers@.len() - i,
    {
        if meta.brokers[i].0 == id {
            return Some(meta.brokers[i].1.clone());
        }
        i += 1;
    }
    None
}

/// The addresses of the leaders of partitions that have one, in order.
pub open spec fn leader_addrs(brokers: Seq<(u32, String)>, parts: Seq<PartitionMeta>) -> Option<
    Seq<Seq<char>>,
>
    decreases parts.len(),
{
    if parts.len() == 0 {
        Some(Seq::empty())
    } else {
        match (leader_addrs(brokers, parts.drop_last()), addr_from(
            brokers,
            parts.last().leader as u32,
            0,
        )) {
            (Some(s), Some(a)) => Some(s.push(a)),
            _ => None,
        }
    }
}

proof fn lemma_no_leader(brokers: Seq<(u32, String)>, parts: Seq<PartitionMeta>, n: int)
    requires
        0 <= n <= parts.len(),
        leader_addrs(brokers, parts.take(n)) is None,
    ensures
        leader_addrs(brokers, parts) is None,
    decreases parts.len(),
{
    if n < parts.len() {
        assert(parts.drop_last().take(n) =~= parts.take(n));
        lemma_no_leader(brokers, parts.drop_last(), n);
    } else {
        assert(parts.take(n) =~= parts);
    }
}

/// Where to send the batches of each partition of a topic that is ready: to its
/// leader.
pub fn leaders_to_dial(meta: &ClusterMeta, topic: &str, partitions: u32, rf: u32) -> (r: Result<
    Vec<String>,
    String,
>)
    requires
        topic_ready(*meta, topic@, partitions, rf),
    ensures
        ({
            let t = topic_from(meta.topics@, topic@, 0)->0;
            match leader_addrs(meta.brokers@, meta.topics@[t].partitions@) {
                Some(a) => r is Ok && texts(r->Ok_0@) == a,
                None => r is Err && r->Err_0@ == "leader missing from broker list"@,
            }
        }),
{
    let mut out: Vec<String> = Vec::new();
    let t: usize = match find_topic(&meta.topics, topic) {
        None => {
            return Ok(out);
        },
        Some(t) => t,
    };
    let parts: &Vec<PartitionMeta> = &meta.topics[t].partitions;
    let ghost ps = parts@;
    let mut i: usize = 0;
    assert(ps.take(0) =~= Seq::empty());
    assert(texts(out@) =~= Seq::empty());
    while i < parts.len()
        invariant
            i <= parts@.len(),
            ps == parts@,
            t < meta.topics@.len(),
            topic_from(meta.topics@, topic@, 0) == Some(t as int),
            parts == meta.topics@[t as int].partitions,
            forall|j: int| 0 <= j < parts@.len() ==> part_ready(#[trigger] parts@[j], rf),
            leader_addrs(meta.brokers@, ps.take(i as int)) == Some(texts(out@)),
        decreases parts@.len() - i,
    {
        proof {
            assert(ps.take(i + 1).drop_last() =~= ps.take(i as int));
            assert(ps.take(i + 1).last() == parts@[i as int]);
            assert(part_ready(parts@[i as int], rf));
        }
        match broker_addr(meta, parts[i].leader as u32) {
            Some(a) => {
                let ghost before = texts(out@);
                let ghost addr = a@;
                out.push(a);
                assert(texts(out@) =~= before.push(addr));
            },
            None => {
                proof {
                    lemma_no_leader(meta.brokers@, ps, i + 1);
                }
                return Err("leader missing from broker list".to_owned());
            },
        }
        i += 1;
    }
    assert(ps.take(i as int) =~= ps);
    Ok(out)
}

/// The value that benchmarks write.
pub fn bench_value(len: usize) -> (r: Vec<u8>)
    ensures
        r@ == Seq::new(len as nat, |i: int| (i * 31 % 256) as u8),
{
    let mut r: Vec<u8> = Vec::new();
    let mut i: usize = 0;
    let mut x: u8 = 0;
    while i < len
        invariant
            i <= len,
            x == i * 31 % 256,
            r@ == Seq::new(i as nat, |j: int| (j * 31 % 256) as u8),
        decreases len - i,
    {
        r.push(x);
        assert(r@ =~= Seq::new((i + 1) as nat, |j: int| (j * 31 % 256) as u8));
        x = ((x as u32 + 31) % 256) as u8;
        i += 1;
    }
    r
}

/// The request for a batch: partitions take turns.
pub fn bench_request(batch: usize, partitions: u32, acks: Acks, records: usize, value: &Vec<u8>) -> (r:
    Request)
    requires
        partitions > 0,
        batch <= u32::MAX,
    ensures
        r matches Request::Produce { topic, partition, acks: a, leader_epoch, records: rs }
            && topic@ == BENCH_TOPIC@ && partition == batch as u32 % partitions && a == acks
            && leader_epoch == 0 && rs@.len() == records && forall|i: int|
            0 <= i < rs@.len() ==> (#[trigger] rs@[i]).key is None && rs@[i].value@ == value@,
{
    let mut rs: Vec<ProduceRecord> = Vec::new();
    let mut i: usize = 0;
    while i < records
        invariant
            i <= records,
            rs@.len() == i,
            forall|j: int|
                0 <= j < i ==> (#[trigger] rs@[j]).key is None && rs@[j].value@ == value@,
        decreases records - i,
    {
        let copy: Vec<u8> = value.clone();
        assert(copy@ =~= value@);
        rs.push(ProduceRecord { key: None, value: copy });
        i += 1;
    }
    Request::Produce {
        topic: BENCH_TOPIC.to_owned(),
        partition: batch as u32 % partitions,
        acks,
        leader_epoch: 0,
        records: rs,
    }
}

} // verus!
