//! What clients may count on.

use super::cluster::{
    addr_of, first_seen, kills_connection, leader_addr, newest, retried, retries_fetch,
    retries_produce, version_of, RetryStep,
};
use super::group::{heartbeat_interval, start_positions};
use super::{position_after, started, CallFault, ClientError, InFlight, Result};
use crate::proto::lookup::{partition_from, partition_of, topic_from};
use crate::proto::{ClusterMeta, ErrorCode, FetchedRecord, PartitionMeta, TopicMeta};
use vstd::prelude::*;

verus! {

/// A produce is tried again, while there is time, after every error that a
/// moving leader or an unfinished topic can cause, and after a lost connection;
/// any other error is handed on at once, and past the deadline the call ends.
pub proof fn law_produce_retried(e: ClientError, in_time: bool, step: RetryStep)
    requires
        retried(e, retries_produce(e@), in_time, step),
    ensures
        match e@ {
            CallFault::Closed => step is Again <==> in_time,
            CallFault::Io(_) => step is Again <==> in_time,
            CallFault::Proto(_) => step == RetryStep::Fail(e),
            CallFault::UnexpectedResponse => step == RetryStep::Fail(e),
            CallFault::Broker(code) => match code {
                ErrorCode::NotLeader => step is Again <==> in_time,
                ErrorCode::FencedEpoch => step is Again <==> in_time,
                ErrorCode::Offline => step is Again <==> in_time,
                ErrorCode::NotEnoughReplicas => step is Again <==> in_time,
                ErrorCode::UnknownTopicOrPartition => step is Again <==> in_time,
                _ => step == RetryStep::Fail(e),
            },
        },
        !in_time ==> step is Fail,
{
}

/// A fetch is tried again, while there is time, after every error that a moving
/// leader can cause and after a lost connection; any other error is handed on.
pub proof fn law_fetch_retried(e: ClientError, in_time: bool, step: RetryStep)
    requires
        retried(e, retries_fetch(e@), in_time, step),
    ensures
        match e@ {
            CallFault::Closed => step is Again <==> in_time,
            CallFault::Io(_) => step is Again <==> in_time,
            CallFault::Proto(_) => step == RetryStep::Fail(e),
            CallFault::UnexpectedResponse => step == RetryStep::Fail(e),
            CallFault::Broker(code) => match code {
                ErrorCode::NotLeader => step is Again <==> in_time,
                ErrorCode::FencedEpoch => step is Again <==> in_time,
                ErrorCode::Offline => step is Again <==> in_time,
                _ => step == RetryStep::Fail(e),
            },
        },
        !in_time ==> step is Fail,
{
}

/// The brokers that a client asks are all that it was given or heard of, each
/// once, those it was given first.
pub proof fn law_candidates(s: Seq<Seq<char>>)
    ensures
        forall|x: Seq<char>| #[trigger] first_seen(s).contains(x) <==> s.contains(x),
        forall|i: int, j: int|
            0 <= i < j < first_seen(s).len() ==> first_seen(s)[i] != first_seen(s)[j],
        s.len() > 0 ==> first_seen(s).len() > 0 && first_seen(s)[0] == s[0],
    decreases s.len(),
{
    if s.len() > 0 {
        let head = s.drop_last();
        let out = first_seen(s);
        law_candidates(head);
        assert(s =~= head.push(s.last()));
        assert forall|x: Seq<char>| #[trigger] out.contains(x) <==> s.contains(x) by {
            crate::order::lemma_text_push(head, s.last(), x);
            crate::order::lemma_text_push(first_seen(head), s.last(), x);
        }
        assert forall|i: int, j: int| 0 <= i < j < out.len() implies out[i] != out[j] by {
            if !head.contains(s.last()) && j == out.len() - 1 {
                assert(out[i] == first_seen(head)[i]);
                assert(first_seen(head).contains(out[i]));
            }
        }
        if head.len() > 0 {
            assert(head[0] == s[0]);
        } else {
            assert(!head.contains(s.last()));
        }
    }
}

pub proof fn lemma_topic_from(ts: Seq<TopicMeta>, name: Seq<char>, i: int, k: int)
    requires
        0 <= i <= k < ts.len(),
        ts[k].name@ == name,
        forall|j: int| i <= j < k ==> (#[trigger] ts[j]).name@ != name,
    ensures
        topic_from(ts, name, i) == Some(k),
    decreases k - i,
{
    if i < k {
        assert(ts[i].name@ != name);
        lemma_topic_from(ts, name, i + 1, k);
    }
}

proof fn lemma_partition_from(ps: Seq<PartitionMeta>, partition: u32, i: int, k: int)
    requires
        0 <= i <= k < ps.len(),
        ps[k].partition == partition,
        forall|j: int| i <= j < k ==> (#[trigger] ps[j]).partition != partition,
    ensures
        partition_from(ps, partition, i) == Some(k),
    decreases k - i,
{
    if i < k {
        assert(ps[i].partition != partition);
        lemma_partition_from(ps, partition, i + 1, k);
    }
}

pub proof fn lemma_addr_of(bs: Seq<(u32, String)>, id: u32, i: int, k: int)
    requires
        0 <= i <= k < bs.len(),
        bs[k].0 == id,
        forall|j: int| i <= j < k ==> (#[trigger] bs[j]).0 != id,
    ensures
        addr_of(bs, id, i) == Some(k),
    decreases k - i,
{
    if i < k {
        assert(bs[i].0 != id);
        lemma_addr_of(bs, id, i + 1, k);
    }
}

/// A client finds the leader that the metadata names: the address of that
/// broker and the epoch it leads in; and nobody for a partition that is offline.
pub proof fn law_leader_found(meta: ClusterMeta, t: int, p: int, b: int)
    requires
        0 <= t < meta.topics@.len(),
        forall|j: int| 0 <= j < t ==> (#[trigger] meta.topics@[j]).name@ != meta.topics@[t].name@,
        0 <= p < meta.topics@[t].partitions@.len(),
        forall|j: int|
            0 <= j < p ==> (#[trigger] meta.topics@[t].partitions@[j]).partition
                != meta.topics@[t].partitions@[p].partition,
    ensures
        ({
            let part = meta.topics@[t].partitions@[p];
            let found = leader_addr(meta, meta.topics@[t].name@, part.partition);
            &&& partition_of(meta, meta.topics@[t].name@, part.partition) == Some(part)
            &&& part.leader < 0 ==> found is None
            &&& part.leader >= 0 && 0 <= b < meta.brokers@.len() && meta.brokers@[b].0
                == part.leader && (forall|j: int|
                0 <= j < b ==> (#[trigger] meta.brokers@[j]).0 != part.leader) ==> found == Some(
                (meta.brokers@[b].1@, part.leader_epoch),
            )
        }),
{
    let part = meta.topics@[t].partitions@[p];
    lemma_topic_from(meta.topics@, meta.topics@[t].name@, 0, t);
    lemma_partition_from(meta.topics@[t].partitions@, part.partition, 0, p);
    if part.leader >= 0 && 0 <= b < meta.brokers@.len() && meta.brokers@[b].0 == part.leader && (
    forall|j: int| 0 <= j < b ==> (#[trigger] meta.brokers@[j]).0 != part.leader) {
        lemma_addr_of(meta.brokers@, part.leader as u32, 0, b);
    }
}

/// Of answers with the same version the first is taken.
pub proof fn law_first_newest(rs: Seq<Result<ClusterMeta>>, n: int)
    requires
        0 <= n <= rs.len(),
    ensures
        newest(rs, n) matches Some(k) ==> 0 <= k < n && forall|i: int|
            0 <= i < k ==> version_of(#[trigger] rs[i]) < version_of(rs[k]),
    decreases n,
{
    if n > 0 {
        law_first_newest(rs, n - 1);
        super::cluster::law_newest_wins(rs, n - 1);
    }
}

/// A member sends three heartbeats in its session timeout, and never waits less
/// than a millisecond.
pub proof fn law_heartbeats(timeout_ms: u32)
    ensures
        heartbeat_interval(timeout_ms) >= 1,
        timeout_ms >= 3 ==> 3 * heartbeat_interval(timeout_ms) <= timeout_ms < 3
            * heartbeat_interval(timeout_ms) + 3,
{
}

/// A member that gets partitions goes on where its group committed, and from
/// the start where it never did.
pub proof fn law_resumes(committed: Seq<Option<u64>>, i: int)
    requires
        0 <= i < committed.len(),
    ensures
        start_positions(committed).len() == committed.len(),
        committed[i] is Some ==> start_positions(committed)[i] == committed[i]->0,
        committed[i] is None ==> start_positions(committed)[i] == 0,
{
}

/// A consumer goes on behind what it read, and reads nothing again; where a
/// fetch brought nothing it stays.
pub proof fn law_nothing_again(position: u64, rs: Seq<FetchedRecord>, i: int)
    requires
        forall|a: int, b: int| 0 <= a < b < rs.len() ==> rs[a].offset < rs[b].offset,
        rs.len() > 0 ==> rs.last().offset < u64::MAX,
    ensures
        rs.len() == 0 ==> position_after(position, rs) == position,
        0 <= i < rs.len() ==> rs[i].offset < position_after(position, rs),
        rs.len() > 0 ==> position_after(position, rs) == rs[rs.len() - 1].offset + 1,
{
}

/// Calls in flight do not meet: the next call gets another id, and both answers
/// find the one who asked.
pub proof fn law_calls_apart(c: InFlight, a: u64, b: u64)
    requires
        !c.closed,
    ensures
        ({
            let d = started(started(c, a), b);
            let first = c.next;
            let second = started(c, a).next;
            &&& first != second
            &&& d.pending.contains_key(first) && d.pending[first] == a
            &&& d.pending.contains_key(second) && d.pending[second] == b
            &&& !d.closed
        }),
{
}

/// A connection is given up exactly where it was lost.
pub proof fn law_connection_dropped(f: CallFault)
    ensures
        kills_connection(f) <==> f is Closed || f is Io,
{
}

} // verus!
