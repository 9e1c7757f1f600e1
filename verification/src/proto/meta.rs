//! Cluster metadata: which brokers there are, and who leads which partition.

use super::lists::{
    addr_list, addr_row, behind, id_list, id_row, lemma_addr_shaped, lemma_encode_next,
    lemma_id_shaped, lemma_next_row, lemma_rows_ends, put_addr_list, put_id_list, read_addr_list,
    read_id_list,
};
use super::schema::{
    append, encode_one, encode_rows, lemma_append, lemma_texts_fit_row, parse, parse_rows,
    parse_uint, shaped, shaped_one, texts_fit, texts_fit_one, Fault, Shape, Shapes, Val, Vals,
};
use super::wire::{put_i32, put_str, put_u32, put_u64, reads, Reader};
use super::{field, reads_row, value, Result};
use crate::codec::put_le;
use vstd::prelude::*;

verus! {

#[derive(Debug, Clone, PartialEq, Eq)]
pub struct PartitionMeta {
    pub partition: u32,
    /// Leading broker id, or -1 when the partition is offline.
    pub leader: i32,
    pub leader_epoch: u64,
    pub replicas: Vec<u32>,
    pub isr: Vec<u32>,
}

#[derive(Debug, Clone, PartialEq, Eq)]
pub struct TopicMeta {
    pub name: String,
    pub partitions: Vec<PartitionMeta>,
}

#[derive(Debug, Clone, PartialEq, Eq)]
pub struct ClusterMeta {
    pub version: u64,
    /// Client-facing address per broker.
    pub brokers: Vec<(u32, String)>,
    /// Inter-broker address per broker (follower fetch, epoch checks). Equal
    /// to the client address unless the broker advertises a separate one —
    /// containers with a private peers network do.
    pub peers: Vec<(u32, String)>,
    pub topics: Vec<TopicMeta>,
}

impl Default for ClusterMeta {
    fn default() -> (r: Self)
        ensures
            r.version == 0,
            r.brokers@.len() == 0,
            r.peers@.len() == 0,
            r.topics@.len() == 0,
    {
        ClusterMeta { version: 0, brokers: Vec::new(), peers: Vec::new(), topics: Vec::new() }
    }
}

pub open spec fn partition_row() -> Shapes {
    field(
        Shape::U32,
        field(
            Shape::I32,
            field(
                Shape::U64,
                field(
                    Shape::List(Box::new(id_row())),
                    field(Shape::List(Box::new(id_row())), Shapes::End),
                ),
            ),
        ),
    )
}

pub open spec fn partition_vals(x: PartitionMeta) -> Vals {
    value(
        Val::U32(x.partition),
        value(
            Val::I32(x.leader),
            value(
                Val::U64(x.leader_epoch),
                value(id_list(x.replicas@), value(id_list(x.isr@), Vals::End)),
            ),
        ),
    )
}

/// A list of partitions.
pub open spec fn partition_list(v: Seq<PartitionMeta>) -> Val {
    Val::List(v.map_values(|x: PartitionMeta| partition_vals(x)))
}

pub proof fn lemma_partition_shaped(v: Seq<PartitionMeta>)
    ensures
        shaped_one(partition_list(v), Shape::List(Box::new(partition_row()))),
{
    let rows = partition_list(v)->List_0;
    assert forall|i: int| 0 <= i < rows.len() implies shaped(
        #[trigger] rows[i],
        partition_row(),
    ) by {
        reveal_with_fuel(shaped, 6);
        lemma_id_shaped(v[i].replicas@);
        lemma_id_shaped(v[i].isr@);
    }
}

fn put_partition(out: &mut Vec<u8>, x: &PartitionMeta)
    ensures
        final(out)@ == append(old(out)@, partition_vals(*x)),
{
    put_u32(out, x.partition);
    put_i32(out, x.leader);
    put_u64(out, x.leader_epoch);
    put_id_list(out, &x.replicas);
    put_id_list(out, &x.isr);
    proof {
        reveal_with_fuel(append, 6);
    }
}

pub fn put_partition_list(out: &mut Vec<u8>, list: &Vec<PartitionMeta>)
    ensures
        final(out)@ == old(out)@ + encode_one(partition_list(list@)),
{
    let ghost start = out@;
    let ghost rows = partition_list(list@)->List_0;
    put_le(out, list.len() as u64, 4);
    let ghost head = out@;
    let mut i: usize = 0;
    assert(out@ =~= head + encode_rows(rows.take(0)));
    while i < list.len()
        invariant
            i <= list@.len(),
            partition_list(list@) == Val::List(rows),
            out@ == head + encode_rows(rows.take(i as int)),
        decreases list@.len() - i,
    {
        let ghost before = out@;
        put_partition(out, &list[i]);
        proof {
            lemma_encode_next(rows, i as int);
            lemma_append(before, partition_vals(list@[i as int]));
            assert(out@ =~= head + encode_rows(rows.take(i + 1)));
        }
        i = i + 1;
    }
    assert(rows.take(i as int) =~= rows);
    assert(out@ =~= start + encode_one(partition_list(list@)));
}

fn read_partition(r: &mut Reader<'_>) -> (res: Result<PartitionMeta>)
    ensures
        reads_row(partition_row(), old(r)@, final(r)@, res, |x: PartitionMeta| partition_vals(x)),
{
    proof {
        reveal_with_fuel(parse, 6);
    }
    let partition: u32 = r.u32()?;
    let leader: i32 = r.i32()?;
    let leader_epoch: u64 = r.u64()?;
    let replicas: Vec<u32> = read_id_list(r)?;
    let isr: Vec<u32> = read_id_list(r)?;
    Ok(PartitionMeta { partition, leader, leader_epoch, replicas, isr })
}

pub fn read_partition_list(r: &mut Reader<'_>) -> (res: Result<Vec<PartitionMeta>>)
    ensures
        reads(
            Shape::List(Box::new(partition_row())),
            old(r)@,
            final(r)@,
            res,
            |x: Vec<PartitionMeta>| partition_list(x@),
        ),
{
    let count: u32 = r.u32()?;
    let ghost body = r@;
    let mut list: Vec<PartitionMeta> = Vec::new();
    let mut i: u32 = 0;
    let ghost mut done: Seq<Vals> = Seq::empty();
    proof {
        lemma_rows_ends(partition_row(), count as nat, body, done, body);
        assert(done =~= list@.map_values(|x: PartitionMeta| partition_vals(x)));
    }
    while i < count
        invariant
            i <= count,
            done == list@.map_values(|x: PartitionMeta| partition_vals(x)),
            parse_uint(old(r)@, 4) == Ok::<(nat, Seq<u8>), Fault>((count as nat, body)),
            parse_rows(partition_row(), count as nat, body) == behind(
                done,
                parse_rows(partition_row(), (count - i) as nat, r@),
            ),
        decreases count - i,
    {
        proof {
            lemma_next_row(done, partition_row(), (count - i) as nat, r@);
        }
        let x: PartitionMeta = read_partition(r)?;
        proof {
            done = done.push(partition_vals(x));
        }
        list.push(x);
        assert(done =~= list@.map_values(|x: PartitionMeta| partition_vals(x)));
        i = i + 1;
    }
    proof {
        lemma_rows_ends(partition_row(), 0, body, done, r@);
    }
    Ok(list)
}

pub open spec fn topic_row() -> Shapes {
    field(Shape::Str, field(Shape::List(Box::new(partition_row())), Shapes::End))
}

pub open spec fn topic_vals(x: TopicMeta) -> Vals {
    value(Val::Str(x.name@), value(partition_list(x.partitions@), Vals::End))
}

/// A list of topics.
pub open spec fn topic_list(v: Seq<TopicMeta>) -> Val {
    Val::List(v.map_values(|x: TopicMeta| topic_vals(x)))
}

pub proof fn lemma_topic_shaped(v: Seq<TopicMeta>)
    ensures
        shaped_one(topic_list(v), Shape::List(Box::new(topic_row()))),
{
    let rows = topic_list(v)->List_0;
    assert forall|i: int| 0 <= i < rows.len() implies shaped(#[trigger] rows[i], topic_row()) by {
        reveal_with_fuel(shaped, 3);
        lemma_partition_shaped(v[i].partitions@);
    }
}

fn put_topic(out: &mut Vec<u8>, x: &TopicMeta)
    requires
        texts_fit(topic_vals(*x)),
    ensures
        final(out)@ == append(old(out)@, topic_vals(*x)),
{
    proof {
        reveal_with_fuel(texts_fit, 3);
    }
    put_str(out, x.name.as_str());
    put_partition_list(out, &x.partitions);
    proof {
        reveal_with_fuel(append, 3);
    }
}

pub fn put_topic_list(out: &mut Vec<u8>, list: &Vec<TopicMeta>)
    requires
        texts_fit_one(topic_list(list@)),
    ensures
        final(out)@ == old(out)@ + encode_one(topic_list(list@)),
{
    let ghost start = out@;
    let ghost rows = topic_list(list@)->List_0;
    put_le(out, list.len() as u64, 4);
    let ghost head = out@;
    let mut i: usize = 0;
    assert(out@ =~= head + encode_rows(rows.take(0)));
    while i < list.len()
        invariant
            i <= list@.len(),
            texts_fit_one(topic_list(list@)),
            topic_list(list@) == Val::List(rows),
            out@ == head + encode_rows(rows.take(i as int)),
        decreases list@.len() - i,
    {
        let ghost before = out@;
        proof {
            lemma_texts_fit_row(topic_list(list@), i as int);
        }
        put_topic(out, &list[i]);
        proof {
            lemma_encode_next(rows, i as int);
            lemma_append(before, topic_vals(list@[i as int]));
            assert(out@ =~= head + encode_rows(rows.take(i + 1)));
        }
        i = i + 1;
    }
    assert(rows.take(i as int) =~= rows);
    assert(out@ =~= start + encode_one(topic_list(list@)));
}

fn read_topic(r: &mut Reader<'_>) -> (res: Result<TopicMeta>)
    ensures
        reads_row(topic_row(), old(r)@, final(r)@, res, |x: TopicMeta| topic_vals(x)),
{
    proof {
        reveal_with_fuel(parse, 3);
    }
    let name: String = r.string()?;
    let partitions: Vec<PartitionMeta> = read_partition_list(r)?;
    Ok(TopicMeta { name, partitions })
}

pub fn read_topic_list(r: &mut Reader<'_>) -> (res: Result<Vec<TopicMeta>>)
    ensures
        reads(
            Shape::List(Box::new(topic_row())),
            old(r)@,
            final(r)@,
            res,
            |x: Vec<TopicMeta>| topic_list(x@),
        ),
{
    let count: u32 = r.u32()?;
    let ghost body = r@;
    let mut list: Vec<TopicMeta> = Vec::new();
    let mut i: u32 = 0;
    let ghost mut done: Seq<Vals> = Seq::empty();
    proof {
        lemma_rows_ends(topic_row(), count as nat, body, done, body);
        assert(done =~= list@.map_values(|x: TopicMeta| topic_vals(x)));
    }
    while i < count
        invariant
            i <= count,
            done == list@.map_values(|x: TopicMeta| topic_vals(x)),
            parse_uint(old(r)@, 4) == Ok::<(nat, Seq<u8>), Fault>((count as nat, body)),
            parse_rows(topic_row(), count as nat, body) == behind(
                done,
                parse_rows(topic_row(), (count - i) as nat, r@),
            ),
        decreases count - i,
    {
        proof {
            lemma_next_row(done, topic_row(), (count - i) as nat, r@);
        }
        let x: TopicMeta = read_topic(r)?;
        proof {
            done = done.push(topic_vals(x));
        }
        list.push(x);
        assert(done =~= list@.map_values(|x: TopicMeta| topic_vals(x)));
        i = i + 1;
    }
    proof {
        lemma_rows_ends(topic_row(), 0, body, done, r@);
    }
    Ok(list)
}

pub open spec fn cluster_row() -> Shapes {
    field(
        Shape::U64,
        field(
            Shape::List(Box::new(addr_row())),
            field(
                Shape::List(Box::new(addr_row())),
                field(Shape::List(Box::new(topic_row())), Shapes::End),
            ),
        ),
    )
}

/// The fields of cluster metadata, in front of `rest`.
pub open spec fn cluster_vals(x: ClusterMeta) -> Vals {
    value(
        Val::U64(x.version),
        value(
            addr_list(x.brokers@),
            value(addr_list(x.peers@), value(topic_list(x.topics@), Vals::End)),
        ),
    )
}

pub proof fn lemma_cluster_shaped(x: ClusterMeta)
    ensures
        shaped(cluster_vals(x), cluster_row()),
{
    reveal_with_fuel(shaped, 5);
    lemma_addr_shaped(x.brokers@);
    lemma_addr_shaped(x.peers@);
    lemma_topic_shaped(x.topics@);
}

pub fn put_cluster_meta(out: &mut Vec<u8>, meta: &ClusterMeta)
    requires
        texts_fit(cluster_vals(*meta)),
    ensures
        final(out)@ == append(old(out)@, cluster_vals(*meta)),
{
    proof {
        reveal_with_fuel(texts_fit, 5);
        reveal_with_fuel(append, 5);
    }
    put_u64(out, meta.version);
    put_addr_list(out, &meta.brokers);
    put_addr_list(out, &meta.peers);
    put_topic_list(out, &meta.topics);
}

pub fn read_cluster_meta(r: &mut Reader<'_>) -> (res: Result<ClusterMeta>)
    ensures
        reads_row(cluster_row(), old(r)@, final(r)@, res, |x: ClusterMeta| cluster_vals(x)),
{
    proof {
        reveal_with_fuel(parse, 5);
    }
    let version: u64 = r.u64()?;
    let brokers: Vec<(u32, String)> = read_addr_list(r)?;
    let peers: Vec<(u32, String)> = read_addr_list(r)?;
    let topics: Vec<TopicMeta> = read_topic_list(r)?;
    Ok(ClusterMeta { version, brokers, peers, topics })
}

} // verus!
