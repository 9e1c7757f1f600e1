//! replog as a fault-injection target (containers) and workload.
//!
//! Same Docker backend and network layout as the Kafka-API targets: brokers
//! advertise a host-published client address and a private peers address,
//! so `isolate` cuts a broker off from the controller *and* from replica
//! fetch while the workload on the host keeps reaching it. Leadership is read
//! the way clients read it (a `Metadata` request to one named broker);
//! health comes from the controller's view (full ISR on every partition).

use super::cluster::FaultTarget;
use super::docker::Docker;
use super::workload::{decode_id, encode_value, value_of, AckLevel};
use crate::codec::le_value;
use crate::harness::isr_of;
use crate::order::texts;
use crate::proto::lookup::{find_topic, partition_of, topic_from};
use crate::proto::meta::{ClusterMeta, PartitionMeta};
use crate::proto::response::FetchedRecord;
use crate::proto::{Acks, ProduceRecord};
use vstd::prelude::*;
use vstd::string::*;

verus! {

#[derive(Clone, Debug)]
pub struct ReplogTargetSpec {
    pub docker: Docker,
    /// Host-reachable client address per broker (`localhost:29000`, ...).
    pub client_addrs: Vec<String>,
    /// Host-reachable controller address (`localhost:29099`).
    pub controller_addr: String,
}

pub struct ReplogTarget {
    pub spec: ReplogTargetSpec,
}

impl ReplogTarget {
    pub fn new(spec: ReplogTargetSpec) -> (r: ReplogTarget)
        ensures
            r.spec == spec,
    {
        ReplogTarget { spec }
    }
}

impl FaultTarget for ReplogTarget {
    open spec fn names(&self) -> Seq<Seq<char>> {
        texts(self.spec.docker.containers@)
    }

    open spec fn addresses(&self) -> Seq<Seq<char>> {
        texts(self.spec.client_addrs@)
    }

    fn broker_count(&self) -> usize {
        self.spec.client_addrs.len()
    }

    fn broker_name(&self, i: usize) -> String {
        self.spec.docker.containers[i].clone()
    }

    fn client_addr(&self, i: usize) -> String {
        self.spec.client_addrs[i].clone()
    }
}

/// The leaders of the first `count` partitions, as a list of partitions gives
/// them; -1 for those that it does not give.
pub open spec fn leaders_in(parts: Seq<PartitionMeta>, count: u32) -> Seq<i32>
    decreases parts.len(),
{
    if parts.len() == 0 {
        Seq::new(count as nat, |i: int| -1i32)
    } else {
        let s = leaders_in(parts.drop_last(), count);
        let p = parts.last();
        if p.partition < count {
            s.update(p.partition as int, p.leader)
        } else {
            s
        }
    }
}

/// The leaders of a topic's partitions.
pub open spec fn leaders_of(meta: ClusterMeta, topic: Seq<char>, count: u32) -> Seq<i32> {
    match topic_from(meta.topics@, topic, 0) {
        Some(t) => leaders_in(meta.topics@[t].partitions@, count),
        None => Seq::new(count as nat, |i: int| -1i32),
    }
}

/// As many unknown leaders as there are partitions.
pub fn unknown_leaders(count: u32) -> (r: Vec<i32>)
    ensures
        r@ == Seq::new(count as nat, |i: int| -1i32),
{
    let mut r: Vec<i32> = Vec::new();
    let mut i: u32 = 0;
    while i < count
        invariant
            i <= count,
            r@ == Seq::new(i as nat, |j: int| -1i32),
        decreases count - i,
    {
        r.push(-1);
        assert(r@ =~= Seq::new((i + 1) as nat, |j: int| -1i32));
        i += 1;
    }
    r
}

/// Leader per partition, as a broker's metadata gives it.
pub fn leaders_from(meta: &ClusterMeta, topic: &str, count: u32) -> (r: Vec<i32>)
    ensures
        r@ == leaders_of(*meta, topic@, count),
        r@.len() == count,
{
    let mut out: Vec<i32> = unknown_leaders(count);
    match find_topic(&meta.topics, topic) {
        Some(t) => {
            let parts: &Vec<PartitionMeta> = &meta.topics[t].partitions;
            let ghost ps = parts@;
            let mut i: usize = 0;
            assert(ps.take(0) =~= Seq::empty());
            while i < parts.len()
                invariant
                    i <= parts@.len(),
                    ps == parts@,
                    out@.len() == count,
                    out@ == leaders_in(ps.take(i as int), count),
                decreases parts@.len() - i,
            {
                proof {
                    assert(ps.take(i + 1).drop_last() =~= ps.take(i as int));
                    assert(ps.take(i + 1).last() == parts@[i as int]);
                }
                if parts[i].partition < count {
                    out.set(parts[i].partition as usize, parts[i].leader);
                }
                i += 1;
            }
            assert(ps.take(i as int) =~= ps);
        },
        None => {},
    }
    out
}

/// Whether the controller sees `n` brokers and a full ISR on every partition.
pub open spec fn fully_replicated(
    meta: ClusterMeta,
    topic: Seq<char>,
    partitions: u32,
    n: usize,
) -> bool {
    &&& meta.brokers@.len() == n
    &&& forall|p: u32| p < partitions ==> #[trigger] isr_len(meta, topic, p) == n
}

/// How many replicas of a partition are in sync.
pub open spec fn isr_len(meta: ClusterMeta, topic: Seq<char>, partition: u32) -> nat {
    match partition_of(meta, topic, partition) {
        Some(p) => p.isr@.len(),
        None => 0,
    }
}

/// Whether the controller sees `n` brokers and a full ISR on every partition.
pub fn is_fully_replicated(meta: &ClusterMeta, topic: &str, partitions: u32, n: usize) -> (r: bool)
    ensures
        r == fully_replicated(*meta, topic@, partitions, n),
{
    if meta.brokers.len() != n {
        return false;
    }
    let mut p: u32 = 0;
    while p < partitions
        invariant
            p <= partitions,
            meta.brokers@.len() == n,
            forall|q: u32| q < p ==> #[trigger] isr_len(*meta, topic@, q) == n,
        decreases partitions - p,
    {
        let isr: Vec<u32> = isr_of(meta, topic, p);
        assert(isr_len(*meta, topic@, p) == isr@.len());
        if isr.len() != n {
            return false;
        }
        p += 1;
    }
    true
}

/// The acknowledgement that a level asks for.
pub fn acks_for(level: AckLevel) -> (r: Acks)
    ensures
        r == (match level {
            AckLevel::All => Acks::All,
            AckLevel::LeaderOnly => Acks::Written,
        }),
{
    match level {
        AckLevel::All => Acks::All,
        AckLevel::LeaderOnly => Acks::Written,
    }
}

/// The records that carry ids, one each, without keys.
pub fn records_for(ids: &Vec<u64>, value_bytes: usize) -> (r: Vec<ProduceRecord>)
    ensures
        r@.len() == ids@.len(),
        forall|i: int|
            0 <= i < r@.len() ==> (#[trigger] r@[i]).key is None && r@[i].value@ == value_of(
                ids@[i],
                value_bytes as nat,
            ),
{
    let mut r: Vec<ProduceRecord> = Vec::new();
    let mut i: usize = 0;
    while i < ids.len()
        invariant
            i <= ids@.len(),
            r@.len() == i,
            forall|j: int|
                0 <= j < i ==> (#[trigger] r@[j]).key is None && r@[j].value@ == value_of(
                    ids@[j],
                    value_bytes as nat,
                ),
        decreases ids@.len() - i,
    {
        r.push(ProduceRecord { key: None, value: encode_value(ids[i], value_bytes) });
        i += 1;
    }
    r
}

/// How many bytes a reader asks for at a time.
pub const READ_BYTES: u32 = 262_144;

/// How long a reader waits for records.
pub const READ_WAIT_MS: u32 = 50;

/// Reads one partition from its start.
pub struct ReplogReader {
    pub topic: String,
    pub partition: u32,
    pub position: u64,
}

/// The offsets and ids of records; those too short for an id are left out.
pub open spec fn pairs_in(records: Seq<FetchedRecord>) -> Seq<(u64, u64)>
    decreases records.len(),
{
    if records.len() == 0 {
        Seq::empty()
    } else {
        let s = pairs_in(records.drop_last());
        let r = records.last();
        if r.value@.len() < 8 {
            s
        } else {
            s.push((r.offset, le_value(r.value@.take(8)) as u64))
        }
    }
}

impl ReplogReader {
    pub fn new(topic: String, partition: u32) -> (r: Self)
        ensures
            r.topic == topic,
            r.partition == partition,
            r.position == 0,
    {
        ReplogReader { topic, partition, position: 0 }
    }

    /// Takes what a fetch at this reader's position returned: the offsets and
    /// ids, and the position behind the last record.
    pub fn fetched(&mut self, records: &Vec<FetchedRecord>) -> (r: Vec<(u64, u64)>)
        requires
            forall|i: int| 0 <= i < records@.len() ==> (#[trigger] records@[i]).offset < u64::MAX,
        ensures
            r@ == pairs_in(records@),
            final(self).topic == old(self).topic,
            final(self).partition == old(self).partition,
            final(self).position == (if records@.len() == 0 {
                old(self).position
            } else {
                (records@.last().offset + 1) as u64
            }),
    {
        let mut out: Vec<(u64, u64)> = Vec::new();
        let ghost rs = records@;
        let mut i: usize = 0;
        assert(out@ =~= pairs_in(rs.take(0)));
        while i < records.len()
            invariant
                i <= records@.len(),
                rs == records@,
                forall|i: int|
                    0 <= i < records@.len() ==> (#[trigger] records@[i]).offset < u64::MAX,
                out@ == pairs_in(rs.take(i as int)),
                self.topic == old(self).topic,
                self.partition == old(self).partition,
                self.position == (if i == 0 {
                    old(self).position
                } else {
                    (rs[i - 1].offset + 1) as u64
                }),
            decreases records@.len() - i,
        {
            proof {
                assert(rs.take(i + 1).drop_last() =~= rs.take(i as int));
                assert(rs.take(i + 1).last() == records@[i as int]);
            }
            if let Some(id) = decode_id(records[i].value.as_slice()) {
                out.push((records[i].offset, id));
            }
            self.position = records[i].offset + 1;
            i += 1;
        }
        assert(rs.take(i as int) =~= rs);
        out
    }
}

} // verus!
