//! Copies of metadata.

use super::lists::addr_list;
use super::meta::{
    cluster_vals, partition_list, partition_vals, topic_list, topic_vals, ClusterMeta,
    PartitionMeta, TopicMeta,
};
use crate::ids::copy_ids;
use vstd::prelude::*;

verus! {

fn copy_addrs(v: &Vec<(u32, String)>) -> (r: Vec<(u32, String)>)
    ensures
        addr_list(r@) == addr_list(v@),
{
    let mut r: Vec<(u32, String)> = Vec::new();
    let mut i: usize = 0;
    while i < v.len()
        invariant
            i <= v@.len(),
            r@.len() == i,
            forall|j: int| 0 <= j < i ==> (#[trigger] r@[j]).0 == v@[j].0 && r@[j].1@ == v@[j].1@,
        decreases v@.len() - i,
    {
        r.push((v[i].0, v[i].1.clone()));
        i += 1;
    }
    assert(addr_list(r@)->List_0 =~= addr_list(v@)->List_0);
    r
}

fn copy_partition(p: &PartitionMeta) -> (r: PartitionMeta)
    ensures
        partition_vals(r) == partition_vals(*p),
{
    PartitionMeta {
        partition: p.partition,
        leader: p.leader,
        leader_epoch: p.leader_epoch,
        replicas: copy_ids(&p.replicas),
        isr: copy_ids(&p.isr),
    }
}

fn copy_topic(t: &TopicMeta) -> (r: TopicMeta)
    ensures
        topic_vals(r) == topic_vals(*t),
{
    let mut partitions: Vec<PartitionMeta> = Vec::new();
    let mut i: usize = 0;
    while i < t.partitions.len()
        invariant
            i <= t.partitions@.len(),
            partitions@.len() == i,
            forall|j: int|
                0 <= j < i ==> partition_vals(#[trigger] partitions@[j]) == partition_vals(
                    t.partitions@[j],
                ),
        decreases t.partitions@.len() - i,
    {
        partitions.push(copy_partition(&t.partitions[i]));
        i += 1;
    }
    assert(partition_list(partitions@)->List_0 =~= partition_list(t.partitions@)->List_0);
    TopicMeta { name: t.name.clone(), partitions }
}

/// The same metadata once more.
pub fn copy_meta(m: &ClusterMeta) -> (r: ClusterMeta)
    ensures
        cluster_vals(r) == cluster_vals(*m),
{
    let mut topics: Vec<TopicMeta> = Vec::new();
    let mut i: usize = 0;
    while i < m.topics.len()
        invariant
            i <= m.topics@.len(),
            topics@.len() == i,
            forall|j: int|
                0 <= j < i ==> topic_vals(#[trigger] topics@[j]) == topic_vals(m.topics@[j]),
        decreases m.topics@.len() - i,
    {
        topics.push(copy_topic(&m.topics[i]));
        i += 1;
    }
    assert(topic_list(topics@)->List_0 =~= topic_list(m.topics@)->List_0);
    ClusterMeta {
        version: m.version,
        brokers: copy_addrs(&m.brokers),
        peers: copy_addrs(&m.peers),
        topics,
    }
}

} // verus!
