//! What a broker does with a request.

use super::cluster::{
    advanced, covered, fetch_refusal, fetched, next_hwm, produce_refusal, Pending, ReplState,
    Replica,
};
use super::groups::{
    commit_fence, fence, group_or_new, group_room, is_known, joined, joined_id, left, left_error,
    member_at, slots, touched, with_group, Groups, JoinOutcome,
};
use super::layout::{topic_name_ok, valid_topic_name};
use super::{
    hosts, knows_topic, partition_counts, replica_index, topic_index, Broker, BrokerView,
    ReplicaInfo,
};
use crate::codec::{from_bits64, signed64};
use crate::order::texts;
use crate::proto::copy::copy_meta;
use crate::proto::meta::cluster_vals;
use crate::proto::{
    Acks, ClusterMeta, ErrorCode, PartitionMeta, ProduceRecord, Request, Response, TopicMeta,
};
use crate::text::same_text;
use vstd::prelude::*;

verus! {

/// Who waits for an append.
#[derive(Clone, Copy, PartialEq, Eq, Structural)]
pub enum AckWait {
    /// Nobody: acks=0.
    Nobody,
    /// The client, for the writer's answer.
    Writer,
    /// The client, until the high-water mark covers what the writer appended.
    Replicas,
}

/// What becomes of a request.
pub enum Route {
    /// Answer at once.
    Reply(Response),
    /// Drop without an answer.
    Silent,
    /// Have the controller answer.
    AskController(Request),
    /// Open the logs of a new topic's partitions, then add the topic.
    CreateTopic { topic: String, partitions: u32 },
    /// Hand the records to the partition's writer.
    Append {
        topic: String,
        partition: u32,
        acks: Acks,
        records: Vec<ProduceRecord>,
        wait: AckWait,
    },
    /// Read up to the log's end, waiting for records if there are none.
    Fetch { topic: String, partition: u32, offset: u64, max_bytes: u32, max_wait_ms: u32 },
    /// Read up to the high-water mark, waiting for it to pass `offset`.
    FetchCommitted { topic: String, partition: u32, offset: u64, max_bytes: u32, max_wait_ms: u32 },
    /// Append the commit to the offsets log, then take it in.
    Commit { group: String, topic: String, partition: u32, offset: u64 },
    /// Acknowledge `ready`, then read up to the log's end for a follower.
    FetchReplica {
        topic: String,
        partition: u32,
        leader_epoch: u64,
        offset: u64,
        max_bytes: u32,
        max_wait_ms: u32,
        ready: Vec<Pending>,
    },
    /// Ask the partition's writer where the epoch ends.
    EpochEnd { topic: String, partition: u32, epoch: u64 },
}

/// Why a broker on its own does not create a topic, if it does not.
pub open spec fn create_refusal(s: BrokerView, topic: Seq<char>, partitions: u32) -> Option<ErrorCode> {
    if !topic_name_ok(topic) || partitions == 0 || partitions > 1024 {
        Some(ErrorCode::Malformed)
    } else if topic_index(s.topics, topic) is Some {
        Some(ErrorCode::TopicExists)
    } else {
        None
    }
}

pub open spec fn produce_error(error: ErrorCode) -> Response {
    Response::Produce { error, base_offset: 0, count: 0 }
}

/// An answer to a fetch that holds no records.
pub open spec fn empty_fetch(r: Response, error: ErrorCode) -> bool {
    r matches Response::Fetch { error: e, log_start, next_offset, records } && e == error
        && log_start == 0 && next_offset == 0 && records@.len() == 0
}

pub open spec fn replica_fetch_error(r: Response, error: ErrorCode) -> bool {
    r matches Response::ReplicaFetch { error: e, leader_epoch, log_end, high_watermark, records }
        && e == error && leader_epoch == 0 && log_end == 0 && high_watermark == 0 && records@.len()
        == 0
}

/// Metadata of a broker on its own: it leads every partition at epoch 0 with
/// itself as the only replica.
pub open spec fn standalone_partition(p: PartitionMeta, n: int) -> bool {
    p.partition == n && p.leader == 0 && p.leader_epoch == 0 && p.replicas@ == seq![0u32] && p.isr@
        == seq![0u32]
}

pub open spec fn standalone_says(m: ClusterMeta, s: BrokerView) -> bool {
    &&& m.version == 0
    &&& m.brokers@.len() == 1 && m.brokers@[0].0 == 0 && m.brokers@[0].1@ == s.advertised
    &&& m.peers@.len() == 1 && m.peers@[0].0 == 0 && m.peers@[0].1@ == s.advertised
    &&& m.topics@.len() == s.topics.len()
    &&& forall|i: int|
        0 <= i < s.topics.len() ==> (#[trigger] m.topics@[i]).name@ == s.topics[i].0
            && m.topics@[i].partitions@.len() == s.topics[i].1 && forall|p: int|
            0 <= p < s.topics[i].1 ==> standalone_partition(
                #[trigger] m.topics@[i].partitions@[p],
                p,
            )
}

/// An error is answered unless nobody waits for an answer.
pub open spec fn refused(route: Route, acks: Acks, error: ErrorCode) -> bool {
    if acks == Acks::NoAck {
        route is Silent
    } else {
        route == Route::Reply(produce_error(error))
    }
}

/// The error that an unanswerable produce gets in a cluster.
pub open spec fn misrouted(s: BrokerView, topic: Seq<char>) -> ErrorCode {
    if knows_topic(s.meta, topic) {
        ErrorCode::NotLeader
    } else {
        ErrorCode::UnknownTopicOrPartition
    }
}

/// What becomes of a produce.
pub open spec fn produce_route(
    s: BrokerView,
    topic: String,
    partition: u32,
    acks: Acks,
    leader_epoch: u64,
    records: Vec<ProduceRecord>,
    route: Route,
) -> bool {
    if s.clustered {
        match replica_index(s.replicas, topic@, partition) {
            None => refused(route, acks, misrouted(s, topic@)),
            Some(i) => match produce_refusal(
                s.replicas[i].state,
                acks,
                leader_epoch,
                s.min_isr,
            ) {
                Some(code) => refused(route, acks, code),
                None => route == (Route::Append {
                    topic,
                    partition,
                    acks: if acks == Acks::All {
                        Acks::Written
                    } else {
                        acks
                    },
                    records,
                    wait: match acks {
                        Acks::NoAck => AckWait::Nobody,
                        Acks::All => AckWait::Replicas,
                        _ => AckWait::Writer,
                    },
                }),
            },
        }
    } else if leader_epoch != 0 {
        refused(route, acks, ErrorCode::FencedEpoch)
    } else if !hosts(s, topic@, partition) {
        refused(route, acks, ErrorCode::UnknownTopicOrPartition)
    } else {
        route == (Route::Append {
            topic,
            partition,
            acks,
            records,
            wait: if acks == Acks::NoAck {
                AckWait::Nobody
            } else {
                AckWait::Writer
            },
        })
    }
}

/// What becomes of a consumer's fetch.
pub open spec fn fetch_route(
    s: BrokerView,
    topic: String,
    partition: u32,
    offset: u64,
    max_bytes: u32,
    max_wait_ms: u32,
    route: Route,
) -> bool {
    if s.clustered {
        match replica_index(s.replicas, topic@, partition) {
            Some(i) => if s.replicas[i].state.is_leader {
                route == (Route::FetchCommitted { topic, partition, offset, max_bytes, max_wait_ms })
            } else {
                route matches Route::Reply(r) && empty_fetch(r, ErrorCode::NotLeader)
            },
            None => route matches Route::Reply(r) && empty_fetch(r, ErrorCode::NotLeader),
        }
    } else if hosts(s, topic@, partition) {
        route == (Route::Fetch { topic, partition, offset, max_bytes, max_wait_ms })
    } else {
        route matches Route::Reply(r) && empty_fetch(r, ErrorCode::UnknownTopicOrPartition)
    }
}

/// What becomes of a follower's fetch, and of the replica that it asks for.
pub open spec fn replica_route(
    s: BrokerView,
    t: BrokerView,
    topic: String,
    partition: u32,
    follower_id: u32,
    leader_epoch: u64,
    offset: u64,
    max_bytes: u32,
    max_wait_ms: u32,
    log_end: u64,
    now_ms: u64,
    route: Route,
) -> bool {
    match replica_index(s.replicas, topic@, partition) {
        None => t == s && (route matches Route::Reply(r) && replica_fetch_error(
            r,
            ErrorCode::NotLeader,
        )),
        Some(i) => match fetch_refusal(s.replicas[i].state, leader_epoch) {
            Some(code) => t == s && (route matches Route::Reply(r) && replica_fetch_error(r, code)),
            None => {
                let v = fetched(s.replicas[i].state, follower_id, offset, log_end, now_ms);
                let info = ReplicaInfo { state: advanced(v, s.id, log_end), ..s.replicas[i] };
                &&& t == (BrokerView { replicas: s.replicas.update(i, info), ..s })
                &&& route matches Route::FetchReplica {
                    topic: rt,
                    partition: rp,
                    leader_epoch: re,
                    offset: ro,
                    max_bytes: rb,
                    max_wait_ms: rw,
                    ready,
                } && rt@ == topic@ && rp == partition && re == leader_epoch && ro == offset && rb
                    == max_bytes && rw == max_wait_ms && ready@ == covered(
                    v.pending,
                    next_hwm(v, s.id, log_end),
                )
            },
        },
    }
}

/// How a join is answered.
pub open spec fn join_route(
    s: BrokerView,
    t: BrokerView,
    group: Seq<char>,
    member_id: Seq<char>,
    session_timeout_ms: u32,
    topics: Seq<Seq<char>>,
    now_ms: u64,
    route: Route,
) -> bool {
    let g = group_or_new(s.groups.groups, group);
    let h = joined(
        g,
        s.groups.next,
        member_id,
        session_timeout_ms as u64,
        topics,
        now_ms,
        partition_counts(s),
    );
    &&& t == (BrokerView {
        groups: Groups {
            groups: with_group(s.groups.groups, h),
            next: if is_known(g, member_id) {
                s.groups.next
            } else {
                s.groups.next.wrapping_add(1)
            },
        },
        ..s
    })
    &&& route matches Route::Reply(Response::JoinGroup { error, member_id: id, generation, assignment })
        && error == ErrorCode::NoError && id@ == joined_id(g, s.groups.next, member_id) && generation
        == h.generation && (member_at(h.members, id@) matches Some(i) && slots(assignment@)
        == h.members[i].assignment)
}

/// What becomes of a request, and of the broker's state. `log_end` is the end
/// of the log that a follower's fetch asks for.
pub open spec fn dispatches(
    s: BrokerView,
    t: BrokerView,
    req: Request,
    log_end: u64,
    now_ms: u64,
    route: Route,
) -> bool {
    match req {
        Request::CreateTopic { topic, partitions, replication_factor } => t == s && if s.clustered {
            route == Route::AskController(req)
        } else if replication_factor > 1 {
            route == Route::Reply(Response::CreateTopic { error: ErrorCode::Malformed })
        } else {
            match create_refusal(s, topic@, partitions) {
                Some(error) => route == Route::Reply(Response::CreateTopic { error }),
                None => route == (Route::CreateTopic { topic, partitions }),
            }
        },
        Request::Metadata => t == s && (route matches Route::Reply(
            Response::Metadata { error, cluster },
        ) && error == ErrorCode::NoError && if s.clustered {
            cluster_vals(cluster) == cluster_vals(s.meta)
        } else {
            standalone_says(cluster, s)
        }),
        Request::Produce { topic, partition, acks, leader_epoch, records } => t == s
            && produce_route(s, topic, partition, acks, leader_epoch, records, route),
        Request::Fetch { topic, partition, offset, max_bytes, max_wait_ms } => t == s
            && fetch_route(s, topic, partition, offset, max_bytes, max_wait_ms, route),
        Request::CommitOffset { group, topic, partition, offset, member_id, generation } => {
            let error = commit_fence(s.groups.groups, group@, member_id@, generation);
            t == s && if error != ErrorCode::NoError {
                route == Route::Reply(Response::CommitOffset { error })
            } else {
                route == (Route::Commit { group, topic, partition, offset })
            }
        },
        Request::FetchOffset { group, topic, partition } => {
            let k = (group@, topic@, partition);
            t == s && route == Route::Reply(
                Response::FetchOffset {
                    error: ErrorCode::NoError,
                    offset: if s.offsets.contains_key(k) {
                        signed64(s.offsets[k] as nat) as i64
                    } else {
                        -1i64
                    },
                },
            )
        },
        Request::JoinGroup { group, member_id, session_timeout_ms, topics } => join_route(
            s,
            t,
            group@,
            member_id@,
            session_timeout_ms,
            texts(topics@),
            now_ms,
            route,
        ),
        Request::Heartbeat { group, member_id, generation } => {
            &&& t == (BrokerView {
                groups: Groups {
                    groups: touched(s.groups.groups, group@, member_id@, generation, now_ms),
                    ..s.groups
                },
                ..s
            })
            &&& route == Route::Reply(
                Response::Heartbeat {
                    error: fence(s.groups.groups, group@, member_id@, generation),
                },
            )
        },
        Request::LeaveGroup { group, member_id } => {
            &&& t == (BrokerView {
                groups: Groups {
                    groups: left(s.groups.groups, group@, member_id@, partition_counts(s)),
                    ..s.groups
                },
                ..s
            })
            &&& route == Route::Reply(
                Response::LeaveGroup { error: left_error(s.groups.groups, group@, member_id@) },
            )
        },
        Request::ReplicaFetch {
            topic,
            partition,
            follower_id,
            leader_epoch,
            offset,
            max_bytes,
            max_wait_ms,
        } => replica_route(
            s,
            t,
            topic,
            partition,
            follower_id,
            leader_epoch,
            offset,
            max_bytes,
            max_wait_ms,
            log_end,
            now_ms,
            route,
        ),
        Request::EpochCheck { topic, partition, epoch } => {
            let refusal = Route::Reply(
                Response::EpochCheck { error: ErrorCode::NotLeader, end_offset: 0 },
            );
            t == s && match replica_index(s.replicas, topic@, partition) {
                Some(i) => if s.replicas[i].state.is_leader {
                    route == (Route::EpochEnd { topic, partition, epoch })
                } else {
                    route == refusal
                },
                None => route == refusal,
            }
        },
        Request::RegisterBroker { .. } => t == s && route == Route::Reply(
            Response::RegisterBroker { error: ErrorCode::Malformed, metadata_version: 0 },
        ),
        Request::BrokerHeartbeat { .. } => t == s && route == Route::Reply(
            Response::BrokerHeartbeat { error: ErrorCode::Malformed, metadata_version: 0 },
        ),
        Request::AlterIsr { .. } => t == s && route == Route::Reply(
            Response::AlterIsr { error: ErrorCode::Malformed, metadata_version: 0 },
        ),
        Request::ControllerMetadata => t == s && (route matches Route::Reply(
            Response::ControllerMetadata { error, cluster },
        ) && error == ErrorCode::Malformed && cluster.version == 0 && cluster.brokers@.len() == 0
            && cluster.peers@.len() == 0 && cluster.topics@.len() == 0),
    }
}

fn produce_failed(acks: Acks, error: ErrorCode) -> (r: Route)
    ensures
        refused(r, acks, error),
{
    if acks == Acks::NoAck {
        Route::Silent
    } else {
        Route::Reply(Response::Produce { error, base_offset: 0, count: 0 })
    }
}

fn fetch_failed(error: ErrorCode) -> (r: Route)
    ensures
        r matches Route::Reply(x) && empty_fetch(x, error),
{
    Route::Reply(Response::Fetch { error, log_start: 0, next_offset: 0, records: Vec::new() })
}

fn replica_fetch_failed(error: ErrorCode) -> (r: Route)
    ensures
        r matches Route::Reply(x) && replica_fetch_error(x, error),
{
    Route::Reply(
        Response::ReplicaFetch {
            error,
            leader_epoch: 0,
            log_end: 0,
            high_watermark: 0,
            records: Vec::new(),
        },
    )
}

/// A request that rebalances a group finds room for that.
pub open spec fn has_room_for(s: BrokerView, req: Request) -> bool {
    match req {
        Request::JoinGroup { group, .. } => group_room(group_or_new(s.groups.groups, group@)),
        Request::LeaveGroup { group, .. } => group_room(group_or_new(s.groups.groups, group@)),
        _ => true,
    }
}

impl Broker {
    /// Metadata of a broker on its own.
    fn metadata(&self) -> (m: ClusterMeta)
        ensures
            standalone_says(m, self@),
    {
        let mut topics: Vec<TopicMeta> = Vec::new();
        let ghost ts = self@.topics;
        let mut i: usize = 0;
        while i < self.topics.len()
            invariant
                i <= self.topics@.len(),
                ts == self@.topics,
                topics@.len() == i,
                forall|j: int|
                    0 <= j < i ==> (#[trigger] topics@[j]).name@ == ts[j].0
                        && topics@[j].partitions@.len() == ts[j].1 && forall|p: int|
                        0 <= p < ts[j].1 ==> standalone_partition(
                            #[trigger] topics@[j].partitions@[p],
                            p,
                        ),
            decreases self.topics@.len() - i,
        {
            let n: u32 = self.topics[i].1;
            let mut partitions: Vec<PartitionMeta> = Vec::new();
            let mut p: u32 = 0;
            while p < n
                invariant
                    p <= n,
                    partitions@.len() == p,
                    forall|q: int|
                        0 <= q < p ==> standalone_partition(#[trigger] partitions@[q], q),
                decreases n - p,
            {
                let mut replicas: Vec<u32> = Vec::new();
                replicas.push(0);
                let mut isr: Vec<u32> = Vec::new();
                isr.push(0);
                assert(replicas@ =~= seq![0u32]);
                assert(isr@ =~= seq![0u32]);
                partitions.push(
                    PartitionMeta { partition: p, leader: 0, leader_epoch: 0, replicas, isr },
                );
                p += 1;
            }
            topics.push(TopicMeta { name: self.topics[i].0.clone(), partitions });
            i += 1;
        }
        let mut brokers: Vec<(u32, String)> = Vec::new();
        brokers.push((0, self.advertised.clone()));
        let mut peers: Vec<(u32, String)> = Vec::new();
        peers.push((0, self.advertised.clone()));
        ClusterMeta { version: 0, brokers, peers, topics }
    }

    fn knows(&self, topic: &str) -> (r: bool)
        ensures
            r == knows_topic(self@.meta, topic@),
    {
        let ghost ts = self.cluster_meta.topics@;
        let mut i: usize = 0;
        while i < self.cluster_meta.topics.len()
            invariant
                i <= ts.len(),
                ts == self.cluster_meta.topics@,
                forall|j: int| 0 <= j < i ==> (#[trigger] ts[j]).name@ != topic@,
            decreases ts.len() - i,
        {
            if same_text(self.cluster_meta.topics[i].name.as_str(), topic) {
                assert(ts[i as int].name@ == topic@);
                return true;
            }
            i += 1;
        }
        false
    }

    fn route_create(&self, topic: String, partitions: u32, replication_factor: u32) -> (route: Route)
        ensures
            dispatches(
                self@,
                self@,
                Request::CreateTopic { topic, partitions, replication_factor },
                0,
                0,
                route,
            ),
    {
        if self.config.controller_addr.is_some() {
            return Route::AskController(
                Request::CreateTopic { topic, partitions, replication_factor },
            );
        }
        if replication_factor > 1 {
            // A broker on its own cannot host replicas.
            return Route::Reply(Response::CreateTopic { error: ErrorCode::Malformed });
        }
        if !valid_topic_name(topic.as_str()) || partitions == 0 || partitions > 1024 {
            return Route::Reply(Response::CreateTopic { error: ErrorCode::Malformed });
        }
        if self.find_topic(topic.as_str()).is_some() {
            return Route::Reply(Response::CreateTopic { error: ErrorCode::TopicExists });
        }
        Route::CreateTopic { topic, partitions }
    }

    fn route_produce(
        &self,
        topic: String,
        partition: u32,
        acks: Acks,
        leader_epoch: u64,
        records: Vec<ProduceRecord>,
    ) -> (route: Route)
        ensures
            produce_route(self@, topic, partition, acks, leader_epoch, records, route),
    {
        if self.config.controller_addr.is_some() {
            let i: usize = match self.find_replica(topic.as_str(), partition) {
                Some(i) => i,
                None => {
                    let code: ErrorCode = if self.knows(topic.as_str()) {
                        ErrorCode::NotLeader
                    } else {
                        ErrorCode::UnknownTopicOrPartition
                    };
                    return produce_failed(acks, code);
                },
            };
            let state: &ReplState = &self.replicas[i].state;
            assert(state@ == self@.replicas[i as int].state);
            if let Some(code) = state.produce_check(
                acks,
                leader_epoch,
                self.config.min_insync_replicas,
            ) {
                return produce_failed(acks, code);
            }
            let wait: AckWait = match acks {
                Acks::NoAck => AckWait::Nobody,
                Acks::All => AckWait::Replicas,
                _ => AckWait::Writer,
            };
            let level: Acks = if acks == Acks::All {
                Acks::Written
            } else {
                acks
            };
            return Route::Append { topic, partition, acks: level, records, wait };
        }
        if leader_epoch != 0 {
            return produce_failed(acks, ErrorCode::FencedEpoch);
        }
        if !self.hosts(topic.as_str(), partition) {
            return produce_failed(acks, ErrorCode::UnknownTopicOrPartition);
        }
        let wait: AckWait = if acks == Acks::NoAck {
            AckWait::Nobody
        } else {
            AckWait::Writer
        };
        Route::Append { topic, partition, acks, records, wait }
    }

    fn route_fetch(
        &self,
        topic: String,
        partition: u32,
        offset: u64,
        max_bytes: u32,
        max_wait_ms: u32,
    ) -> (route: Route)
        ensures
            fetch_route(self@, topic, partition, offset, max_bytes, max_wait_ms, route),
    {
        if self.config.controller_addr.is_some() {
            return match self.find_replica(topic.as_str(), partition) {
                Some(i) => {
                    let state: &ReplState = &self.replicas[i].state;
                    assert(state@ == self@.replicas[i as int].state);
                    if state.is_leader {
                        Route::FetchCommitted { topic, partition, offset, max_bytes, max_wait_ms }
                    } else {
                        fetch_failed(ErrorCode::NotLeader)
                    }
                },
                None => fetch_failed(ErrorCode::NotLeader),
            };
        }
        if self.hosts(topic.as_str(), partition) {
            Route::Fetch { topic, partition, offset, max_bytes, max_wait_ms }
        } else {
            fetch_failed(ErrorCode::UnknownTopicOrPartition)
        }
    }

    fn route_replica_fetch(
        &mut self,
        topic: String,
        partition: u32,
        follower_id: u32,
        leader_epoch: u64,
        offset: u64,
        max_bytes: u32,
        max_wait_ms: u32,
        log_end: u64,
        now_ms: u64,
    ) -> (route: Route)
        requires
            old(self).ok(),
        ensures
            final(self).ok(),
            replica_route(
                old(self)@,
                final(self)@,
                topic,
                partition,
                follower_id,
                leader_epoch,
                offset,
                max_bytes,
                max_wait_ms,
                log_end,
                now_ms,
                route,
            ),
    {
        let ghost s = self@;
        let i: usize = match self.find_replica(topic.as_str(), partition) {
            Some(i) => i,
            None => {
                return replica_fetch_failed(ErrorCode::NotLeader);
            },
        };
        let self_id: u32 = self.config.broker_id;
        let replica: &mut Replica = &mut self.replicas[i];
        let ghost before = replica.state@;
        assert(before == s.replicas[i as int].state);
        let refusal: Option<ErrorCode> = replica.state.follower_fetch(
            follower_id,
            leader_epoch,
            offset,
            log_end,
            now_ms,
        );
        match refusal {
            Some(code) => {
                proof {
                    assert(self@.replicas =~= s.replicas);
                }
                return replica_fetch_failed(code);
            },
            None => {},
        }
        let ready: Vec<Pending> = replica.state.advance_hwm(self_id, log_end);
        proof {
            let v = fetched(before, follower_id, offset, log_end, now_ms);
            let info = ReplicaInfo {
                state: advanced(v, s.id, log_end),
                ..s.replicas[i as int]
            };
            assert(self.replicas@[i as int]@ == info);
            assert(self@.replicas =~= s.replicas.update(i as int, info));
            assert forall|a: int, b: int| 0 <= a < b < self@.replicas.len() implies (
            #[trigger] self@.replicas[a]).topic != (#[trigger] self@.replicas[b]).topic
                || self@.replicas[a].partition != self@.replicas[b].partition by {
                assert(s.replicas[a].topic == self@.replicas[a].topic);
                assert(s.replicas[b].topic == self@.replicas[b].topic);
            }
        }
        Route::FetchReplica {
            topic,
            partition,
            leader_epoch,
            offset,
            max_bytes,
            max_wait_ms,
            ready,
        }
    }

    /// Whether the group that a request rebalances has room for it.
    pub fn has_room_for(&self, req: &Request) -> (r: bool)
        ensures
            r == has_room_for(self@, *req),
    {
        match req {
            Request::JoinGroup { group, .. } => self.groups.has_room_in(group.as_str()),
            Request::LeaveGroup { group, .. } => self.groups.has_room_in(group.as_str()),
            _ => true,
        }
    }

    /// Routes one request. `log_end` is the end of the log of the partition
    /// that a follower's fetch names.
    #[verifier::rlimit(60)]
    pub fn dispatch(&mut self, req: Request, log_end: u64, now_ms: u64) -> (route: Route)
        requires
            old(self).ok(),
            has_room_for(old(self)@, req),
        ensures
            final(self).ok(),
            dispatches(old(self)@, final(self)@, req, log_end, now_ms, route),
    {
        match req {
            Request::CreateTopic { topic, partitions, replication_factor } => self.route_create(
                topic,
                partitions,
                replication_factor,
            ),
            Request::Metadata => {
                let cluster: ClusterMeta = if self.config.controller_addr.is_some() {
                    copy_meta(&self.cluster_meta)
                } else {
                    self.metadata()
                };
                Route::Reply(Response::Metadata { error: ErrorCode::NoError, cluster })
            },
            Request::Produce { topic, partition, acks, leader_epoch, records } => {
                self.route_produce(topic, partition, acks, leader_epoch, records)
            },
            Request::Fetch { topic, partition, offset, max_bytes, max_wait_ms } => {
                self.route_fetch(topic, partition, offset, max_bytes, max_wait_ms)
            },
            Request::CommitOffset { group, topic, partition, offset, member_id, generation } => {
                let error: ErrorCode = self.groups.check_commit(
                    group.as_str(),
                    member_id.as_str(),
                    generation,
                );
                if error != ErrorCode::NoError {
                    Route::Reply(Response::CommitOffset { error })
                } else {
                    Route::Commit { group, topic, partition, offset }
                }
            },
            Request::FetchOffset { group, topic, partition } => {
                let offset: i64 = match self.offsets.fetch(
                    group.as_str(),
                    topic.as_str(),
                    partition,
                ) {
                    Some(o) => from_bits64(o),
                    None => -1,
                };
                Route::Reply(Response::FetchOffset { error: ErrorCode::NoError, offset })
            },
            Request::JoinGroup { group, member_id, session_timeout_ms, topics } => {
                let counts: Vec<(String, u32)> = self.counts();
                let outcome: JoinOutcome = self.groups.join(
                    group.as_str(),
                    member_id.as_str(),
                    session_timeout_ms,
                    topics,
                    &counts,
                    now_ms,
                );
                Route::Reply(
                    Response::JoinGroup {
                        error: ErrorCode::NoError,
                        member_id: outcome.member_id,
                        generation: outcome.generation,
                        assignment: outcome.assignment,
                    },
                )
            },
            Request::Heartbeat { group, member_id, generation } => {
                let error: ErrorCode = self.groups.heartbeat(
                    group.as_str(),
                    member_id.as_str(),
                    generation,
                    now_ms,
                );
                Route::Reply(Response::Heartbeat { error })
            },
            Request::LeaveGroup { group, member_id } => {
                let counts: Vec<(String, u32)> = self.counts();
                let error: ErrorCode = self.groups.leave(
                    group.as_str(),
                    member_id.as_str(),
                    &counts,
                );
                Route::Reply(Response::LeaveGroup { error })
            },
            Request::ReplicaFetch {
                topic,
                partition,
                follower_id,
                leader_epoch,
                offset,
                max_bytes,
                max_wait_ms,
            } => self.route_replica_fetch(
                topic,
                partition,
                follower_id,
                leader_epoch,
                offset,
                max_bytes,
                max_wait_ms,
                log_end,
                now_ms,
            ),
            Request::EpochCheck { topic, partition, epoch } => {
                let leads: bool = match self.find_replica(topic.as_str(), partition) {
                    Some(i) => {
                        let state: &ReplState = &self.replicas[i].state;
                        assert(state@ == self@.replicas[i as int].state);
                        state.is_leader
                    },
                    None => false,
                };
                if leads {
                    Route::EpochEnd { topic, partition, epoch }
                } else {
                    Route::Reply(
                        Response::EpochCheck { error: ErrorCode::NotLeader, end_offset: 0 },
                    )
                }
            },
            // Controller-plane messages belong to the controller process.
            Request::RegisterBroker { .. } => Route::Reply(
                Response::RegisterBroker { error: ErrorCode::Malformed, metadata_version: 0 },
            ),
            Request::BrokerHeartbeat { .. } => Route::Reply(
                Response::BrokerHeartbeat { error: ErrorCode::Malformed, metadata_version: 0 },
            ),
            Request::AlterIsr { .. } => Route::Reply(
                Response::AlterIsr { error: ErrorCode::Malformed, metadata_version: 0 },
            ),
            Request::ControllerMetadata => Route::Reply(
                Response::ControllerMetadata {
                    error: ErrorCode::Malformed,
                    cluster: ClusterMeta::default(),
                },
            ),
        }
    }
}

} // verus!
