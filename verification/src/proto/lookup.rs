//! Looking a partition up in metadata.

use super::meta::{ClusterMeta, PartitionMeta, TopicMeta};
use crate::text::same_text;
use vstd::prelude::*;

verus! {

/// The first topic of that name, from `i` on.
pub open spec fn topic_from(topics: Seq<TopicMeta>, name: Seq<char>, i: int) -> Option<int>
    decreases topics.len() - i,
{
    if i < 0 || i >= topics.len() {
        None
    } else if topics[i].name@ == name {
        Some(i)
    } else {
        topic_from(topics, name, i + 1)
    }
}

/// The first partition of that number, from `i` on.
pub open spec fn partition_from(parts: Seq<PartitionMeta>, partition: u32, i: int) -> Option<int>
    decreases parts.len() - i,
{
    if i < 0 || i >= parts.len() {
        None
    } else if parts[i].partition == partition {
        Some(i)
    } else {
        partition_from(parts, partition, i + 1)
    }
}

/// What metadata says of a partition.
pub open spec fn partition_of(meta: ClusterMeta, topic: Seq<char>, partition: u32) -> Option<
    PartitionMeta,
> {
    match topic_from(meta.topics@, topic, 0) {
        Some(t) => match partition_from(meta.topics@[t].partitions@, partition, 0) {
            Some(p) => Some(meta.topics@[t].partitions@[p]),
            None => None,
        },
        None => None,
    }
}

/// The first topic of that name.
pub fn find_topic(topics: &Vec<TopicMeta>, name: &str) -> (r: Option<usize>)
    ensures
        match topic_from(topics@, name@, 0) {
            Some(i) => r matches Some(k) && k == i && 0 <= i < topics@.len(),
            None => r is None,
        },
{
    let mut i: usize = 0;
    while i < topics.len()
        invariant
            i <= topics@.len(),
            topic_from(topics@, name@, i as int) == topic_from(topics@, name@, 0),
        decreases topics@.len() - i,
    {
        if same_text(topics[i].name.as_str(), name) {
            return Some(i);
        }
        i += 1;
    }
    None
}

/// The first partition of that number.
pub fn find_partition(parts: &Vec<PartitionMeta>, partition: u32) -> (r: Option<usize>)
    ensures
        match partition_from(parts@, partition, 0) {
            Some(i) => r matches Some(k) && k == i && 0 <= i < parts@.len(),
            None => r is None,
        },
{
    let mut i: usize = 0;
    while i < parts.len()
        invariant
            i <= parts@.len(),
            partition_from(parts@, partition, i as int) == partition_from(parts@, partition, 0),
        decreases parts@.len() - i,
    {
        if parts[i].partition == partition {
            return Some(i);
        }
        i += 1;
    }
    None
}

} // verus!
