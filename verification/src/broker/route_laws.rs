//! Where a broker sends each request that it takes.

use super::cluster::{advanced, covered, fetched};
use super::dispatch::{dispatches, AckWait, Route};
use super::group_laws::law_leave;
use super::groups::{
    fence, group_at, group_or_new, group_room, groups_ok, is_known, joined, lemma_group_at,
    lemma_member_at, member_at, slots, with_group, GroupInfo, MemberInfo,
};
use super::layout::topic_name_ok;
use super::leader_laws::{law_follower_served, law_produce_taken};
use super::member_laws::law_groups_apart;
use super::{
    lemma_replica_index, partition_counts, replica_index, replicas_distinct, topic_index,
    topics_rise, BrokerView, ReplicaInfo,
};
use crate::order::texts;
use crate::proto::{Acks, ErrorCode, Request, Response};
use vstd::prelude::*;

verus! {

proof fn lemma_hosted(rs: Seq<ReplicaInfo>, i: int)
    requires
        replicas_distinct(rs),
        0 <= i < rs.len(),
    ensures
        replica_index(rs, rs[i].topic, rs[i].partition) == Some(i),
{
    lemma_replica_index(rs, rs[i].topic, rs[i].partition);
    let k = replica_index(rs, rs[i].topic, rs[i].partition);
    if k is None {
        assert(rs[i].topic != rs[i].topic || rs[i].partition != rs[i].partition);
    } else if k->0 < i {
        assert(rs[k->0].topic != rs[i].topic || rs[k->0].partition != rs[i].partition);
    } else if k->0 > i {
        assert(rs[i].topic != rs[k->0].topic || rs[i].partition != rs[k->0].partition);
    }
}

proof fn lemma_topic_hosted(ts: Seq<(Seq<char>, u32)>, name: Seq<char>)
    ensures
        topic_index(ts, name) matches Some(k) ==> 0 <= k < ts.len() && ts[k].0 == name,
        topic_index(ts, name) is None ==> forall|i: int|
            0 <= i < ts.len() ==> (#[trigger] ts[i]).0 != name,
    decreases ts.len(),
{
    if ts.len() > 0 && ts.last().0 != name {
        let head = ts.drop_last();
        lemma_topic_hosted(head, name);
        assert forall|i: int| 0 <= i < ts.len() && topic_index(ts, name) is None implies (
        #[trigger] ts[i]).0 != name by {
            if i < head.len() {
                assert(head[i] == ts[i]);
            }
        }
    }
}

/// In a cluster, a produce to a replica that is here goes to its log, whole and
/// as it came, exactly where that replica leads in the epoch the client knows
/// (or the client names none) and, at acks=all, enough replicas are in sync.
/// The answer then waits for what the client asked: nobody, the log, or every
/// replica in sync.
pub proof fn law_leader_appends(
    s: BrokerView,
    t: BrokerView,
    req: Request,
    log_end: u64,
    now_ms: u64,
    route: Route,
    i: int,
)
    requires
        s.clustered,
        replicas_distinct(s.replicas),
        0 <= i < s.replicas.len(),
        req is Produce,
        req->Produce_topic@ == s.replicas[i].topic,
        req->Produce_partition == s.replicas[i].partition,
        dispatches(s, t, req, log_end, now_ms, route),
    ensures
        ({
            let v = s.replicas[i].state;
            let epoch = req->Produce_leader_epoch;
            let acks = req->Produce_acks;
            let own = epoch == 0 || epoch == v.epoch;
            let enough = acks == Acks::All ==> v.isr.len() >= s.min_isr;
            &&& t == s
            &&& route is Append <==> v.is_leader && own && enough
            &&& route matches Route::Append { topic, partition, acks: a, records, wait } ==> {
                &&& topic == req->Produce_topic
                &&& partition == req->Produce_partition
                &&& records == req->Produce_records
                &&& acks == Acks::NoAck ==> wait == AckWait::Nobody && a == Acks::NoAck
                &&& acks == Acks::Written ==> wait == AckWait::Writer && a == Acks::Written
                &&& acks == Acks::Durable ==> wait == AckWait::Writer && a == Acks::Durable
                &&& acks == Acks::All ==> wait == AckWait::Replicas && a == Acks::Written
            }
            &&& !(route is Append) && acks == Acks::NoAck ==> route is Silent
            &&& !(route is Append) && acks != Acks::NoAck ==> route == Route::Reply(
                Response::Produce {
                    error: if !v.is_leader {
                        ErrorCode::NotLeader
                    } else if !own {
                        ErrorCode::FencedEpoch
                    } else {
                        ErrorCode::NotEnoughReplicas
                    },
                    base_offset: 0,
                    count: 0,
                },
            )
        }),
{
    lemma_hosted(s.replicas, i);
    law_produce_taken(
        s.replicas[i].state,
        req->Produce_acks,
        req->Produce_leader_epoch,
        s.min_isr,
    );
}

/// In a cluster, what is asked of a replica that is not here is turned away: a
/// produce or fetch as one for another leader, or, for a produce to a topic
/// that the metadata does not name, as unknown.
pub proof fn law_absent_turned_away(
    s: BrokerView,
    t: BrokerView,
    req: Request,
    log_end: u64,
    now_ms: u64,
    route: Route,
    topic: Seq<char>,
    partition: u32,
)
    requires
        s.clustered,
        forall|i: int|
            0 <= i < s.replicas.len() ==> (#[trigger] s.replicas[i]).topic != topic
                || s.replicas[i].partition != partition,
        dispatches(s, t, req, log_end, now_ms, route),
    ensures
        req is Produce && req->Produce_topic@ == topic && req->Produce_partition == partition ==> {
            let known = exists|i: int|
                0 <= i < s.meta.topics@.len() && (#[trigger] s.meta.topics@[i]).name@ == topic;
            &&& t == s
            &&& req->Produce_acks == Acks::NoAck ==> route is Silent
            &&& req->Produce_acks != Acks::NoAck ==> route == Route::Reply(
                Response::Produce {
                    error: if known {
                        ErrorCode::NotLeader
                    } else {
                        ErrorCode::UnknownTopicOrPartition
                    },
                    base_offset: 0,
                    count: 0,
                },
            )
        },
        req is Fetch && req->Fetch_topic@ == topic && req->Fetch_partition == partition ==> t == s
            && (route matches Route::Reply(Response::Fetch { error, records, .. }) && error
            == ErrorCode::NotLeader && records@.len() == 0),
        req is ReplicaFetch && req->ReplicaFetch_topic@ == topic && req->ReplicaFetch_partition
            == partition ==> t == s && (route matches Route::Reply(
            Response::ReplicaFetch { error, records, .. },
        ) && error == ErrorCode::NotLeader && records@.len() == 0),
        req is EpochCheck && req->EpochCheck_topic@ == topic && req->EpochCheck_partition
            == partition ==> t == s && (route matches Route::Reply(
            Response::EpochCheck { error, .. },
        ) && error == ErrorCode::NotLeader),
{
    lemma_replica_index(s.replicas, topic, partition);
    if let Some(i) = replica_index(s.replicas, topic, partition) {
        assert(s.replicas[i].topic != topic || s.replicas[i].partition != partition);
    }
}

/// In a cluster, a fetch from a replica that is here is served, below the high
/// watermark and with the bounds it came with, exactly where the replica leads;
/// so is a question for the end of an epoch.
pub proof fn law_leader_serves(
    s: BrokerView,
    t: BrokerView,
    req: Request,
    log_end: u64,
    now_ms: u64,
    route: Route,
    i: int,
)
    requires
        s.clustered,
        replicas_distinct(s.replicas),
        0 <= i < s.replicas.len(),
        dispatches(s, t, req, log_end, now_ms, route),
    ensures
        req is Fetch && req->Fetch_topic@ == s.replicas[i].topic && req->Fetch_partition
            == s.replicas[i].partition ==> {
            &&& t == s
            &&& s.replicas[i].state.is_leader ==> route == (Route::FetchCommitted {
                topic: req->Fetch_topic,
                partition: req->Fetch_partition,
                offset: req->Fetch_offset,
                max_bytes: req->Fetch_max_bytes,
                max_wait_ms: req->Fetch_max_wait_ms,
            })
            &&& !s.replicas[i].state.is_leader ==> (route matches Route::Reply(
                Response::Fetch { error, records, .. },
            ) && error == ErrorCode::NotLeader && records@.len() == 0)
        },
        req is EpochCheck && req->EpochCheck_topic@ == s.replicas[i].topic
            && req->EpochCheck_partition == s.replicas[i].partition ==> {
            &&& t == s
            &&& s.replicas[i].state.is_leader ==> route == (Route::EpochEnd {
                topic: req->EpochCheck_topic,
                partition: req->EpochCheck_partition,
                epoch: req->EpochCheck_epoch,
            })
            &&& !s.replicas[i].state.is_leader ==> (route matches Route::Reply(
                Response::EpochCheck { error, .. },
            ) && error == ErrorCode::NotLeader)
        },
{
    lemma_hosted(s.replicas, i);
}

/// A follower's fetch that the leader serves counts at once: its progress is
/// noted, the high watermark follows, the produces that this completes are
/// answered, and no other replica or part of the broker changes. A fetch in
/// another epoch, or to one that does not lead, changes nothing.
pub proof fn law_follower_counts(
    s: BrokerView,
    t: BrokerView,
    req: Request,
    log_end: u64,
    now_ms: u64,
    route: Route,
    i: int,
)
    requires
        replicas_distinct(s.replicas),
        0 <= i < s.replicas.len(),
        dispatches(s, t, req, log_end, now_ms, route),
        req is ReplicaFetch,
        req->ReplicaFetch_topic@ == s.replicas[i].topic,
        req->ReplicaFetch_partition == s.replicas[i].partition,
    ensures
        ({
            let v = s.replicas[i].state;
            let epoch = req->ReplicaFetch_leader_epoch;
            let w = fetched(
                v,
                req->ReplicaFetch_follower_id,
                req->ReplicaFetch_offset,
                log_end,
                now_ms,
            );
            if v.is_leader && epoch == v.epoch {
                &&& t.replicas.len() == s.replicas.len()
                &&& t.replicas[i].state == advanced(w, s.id, log_end)
                &&& t.replicas[i].topic == s.replicas[i].topic
                &&& t.replicas[i].partition == s.replicas[i].partition
                &&& forall|k: int|
                    0 <= k < s.replicas.len() && k != i ==> #[trigger] t.replicas[k]
                        == s.replicas[k]
                &&& t == (BrokerView { replicas: t.replicas, ..s })
                &&& route is FetchReplica
                &&& route->FetchReplica_topic@ == s.replicas[i].topic
                &&& route->FetchReplica_partition == s.replicas[i].partition
                &&& route->FetchReplica_leader_epoch == epoch
                &&& route->FetchReplica_offset == req->ReplicaFetch_offset
                &&& route->FetchReplica_max_bytes == req->ReplicaFetch_max_bytes
                &&& route->FetchReplica_max_wait_ms == req->ReplicaFetch_max_wait_ms
                &&& route->FetchReplica_ready@ == covered(v.pending, t.replicas[i].state.hwm)
            } else {
                &&& t == s
                &&& route matches Route::Reply(Response::ReplicaFetch { error, records, .. })
                    && records@.len() == 0 && error == (if v.is_leader {
                    ErrorCode::FencedEpoch
                } else {
                    ErrorCode::NotLeader
                })
            }
        }),
{
    lemma_hosted(s.replicas, i);
    law_follower_served(s.replicas[i].state, req->ReplicaFetch_leader_epoch);
}

/// A broker of its own takes a produce without an epoch into the log of a
/// partition that it has, whole and as it came, and serves a fetch from one; it
/// knows no epochs and no other partitions.
pub proof fn law_standalone_serves(
    s: BrokerView,
    t: BrokerView,
    req: Request,
    log_end: u64,
    now_ms: u64,
    route: Route,
    topic: Seq<char>,
    partition: u32,
)
    requires
        !s.clustered,
        topics_rise(s.topics),
        dispatches(s, t, req, log_end, now_ms, route),
    ensures
        ({
            let here = exists|i: int|
                0 <= i < s.topics.len() && (#[trigger] s.topics[i]).0 == topic && partition
                    < s.topics[i].1;
            &&& req is Produce && req->Produce_topic@ == topic && req->Produce_partition
                == partition ==> {
                &&& t == s
                &&& route is Append <==> here && req->Produce_leader_epoch == 0
                &&& route is Append ==> route == (Route::Append {
                    topic: req->Produce_topic,
                    partition,
                    acks: req->Produce_acks,
                    records: req->Produce_records,
                    wait: if req->Produce_acks == Acks::NoAck {
                        AckWait::Nobody
                    } else {
                        AckWait::Writer
                    },
                })
                &&& !(route is Append) && req->Produce_acks != Acks::NoAck ==> route
                    == Route::Reply(
                    Response::Produce {
                        error: if req->Produce_leader_epoch != 0 {
                            ErrorCode::FencedEpoch
                        } else {
                            ErrorCode::UnknownTopicOrPartition
                        },
                        base_offset: 0,
                        count: 0,
                    },
                )
            }
            &&& req is Fetch && req->Fetch_topic@ == topic && req->Fetch_partition == partition
                ==> {
                &&& t == s
                &&& here ==> route == (Route::Fetch {
                    topic: req->Fetch_topic,
                    partition,
                    offset: req->Fetch_offset,
                    max_bytes: req->Fetch_max_bytes,
                    max_wait_ms: req->Fetch_max_wait_ms,
                })
                &&& !here ==> (route matches Route::Reply(Response::Fetch { error, records, .. })
                    && error == ErrorCode::UnknownTopicOrPartition && records@.len() == 0)
            }
        }),
{
    lemma_topic_hosted(s.topics, topic);
    if let Some(k) = topic_index(s.topics, topic) {
        assert forall|i: int| 0 <= i < s.topics.len() && (#[trigger] s.topics[i]).0 == topic implies i
            == k by {
            if i < k {
                assert(s.topics[i].0 != s.topics[k].0);
            } else if k < i {
                assert(s.topics[k].0 != s.topics[i].0);
            }
        }
    }
}

/// A topic is made where none has its name, the name is one of letters, digits,
/// `-`, `_` and `.` of at most 200 characters that does not start like the
/// broker's own topics, the partitions are 1 to 1024, and one copy is asked for
/// at most. In a cluster the controller decides.
pub proof fn law_topic_made(
    s: BrokerView,
    t: BrokerView,
    req: Request,
    log_end: u64,
    now_ms: u64,
    route: Route,
)
    requires
        req is CreateTopic,
        dispatches(s, t, req, log_end, now_ms, route),
    ensures
        ({
            let name = req->CreateTopic_topic@;
            let n = req->CreateTopic_partitions;
            let rf = req->CreateTopic_replication_factor;
            let taken = exists|i: int| 0 <= i < s.topics.len() && (#[trigger] s.topics[i]).0
                == name;
            let plain = 1 <= name.len() <= 200 && !(name.len() >= 2 && name[0] == '_' && name[1]
                == '_') && forall|i: int|
                0 <= i < name.len() ==> ('a' <= #[trigger] name[i] <= 'z' || 'A' <= name[i] <= 'Z'
                    || '0' <= name[i] <= '9' || name[i] == '-' || name[i] == '_' || name[i] == '.');
            let good = plain && 1 <= n <= 1024 && rf <= 1;
            &&& t == s
            &&& s.clustered ==> route == Route::AskController(req)
            &&& !s.clustered && good && !taken ==> route == (Route::CreateTopic {
                topic: req->CreateTopic_topic,
                partitions: n,
            })
            &&& !s.clustered && good && taken ==> route == Route::Reply(
                Response::CreateTopic { error: ErrorCode::TopicExists },
            )
            &&& !s.clustered && !good ==> route == Route::Reply(
                Response::CreateTopic { error: ErrorCode::Malformed },
            )
        }),
{
    lemma_topic_hosted(s.topics, req->CreateTopic_topic@);
    let name = req->CreateTopic_topic@;
    assert(topic_name_ok(name) ==> forall|i: int|
        0 <= i < name.len() ==> super::layout::is_topic_char(#[trigger] name[i]));
    if forall|i: int|
        0 <= i < name.len() ==> ('a' <= #[trigger] name[i] <= 'z' || 'A' <= name[i] <= 'Z' || '0'
            <= name[i] <= '9' || name[i] == '-' || name[i] == '_' || name[i] == '.') {
        assert forall|i: int| 0 <= i < name.len() implies super::layout::is_topic_char(
            #[trigger] name[i],
        ) by {}
    }
}

/// A commit goes to the offsets log as it came, exactly where it comes from no
/// group member, or from a member of the group in its present generation.
pub proof fn law_commit_taken(
    s: BrokerView,
    t: BrokerView,
    req: Request,
    log_end: u64,
    now_ms: u64,
    route: Route,
)
    requires
        req is CommitOffset,
        dispatches(s, t, req, log_end, now_ms, route),
    ensures
        ({
            let member = req->CommitOffset_member_id@;
            let error = fence(
                s.groups.groups,
                req->CommitOffset_group@,
                member,
                req->CommitOffset_generation,
            );
            &&& t == s
            &&& member.len() == 0 || error == ErrorCode::NoError ==> route == (Route::Commit {
                group: req->CommitOffset_group,
                topic: req->CommitOffset_topic,
                partition: req->CommitOffset_partition,
                offset: req->CommitOffset_offset,
            })
            &&& member.len() > 0 && error != ErrorCode::NoError ==> route == Route::Reply(
                Response::CommitOffset { error },
            )
        }),
{
}

/// What a group reads of its place is what it committed last, and -1 where it
/// never committed.
pub proof fn law_committed_is_read(
    s: BrokerView,
    t: BrokerView,
    req: Request,
    log_end: u64,
    now_ms: u64,
    route: Route,
)
    requires
        req is FetchOffset,
        dispatches(s, t, req, log_end, now_ms, route),
    ensures
        ({
            let place = (
                req->FetchOffset_group@,
                req->FetchOffset_topic@,
                req->FetchOffset_partition,
            );
            &&& t == s
            &&& route is Reply && route->Reply_0 is FetchOffset
            &&& route->Reply_0->FetchOffset_error == ErrorCode::NoError
            &&& !s.offsets.contains_key(place) ==> route->Reply_0->FetchOffset_offset == -1
            &&& s.offsets.contains_key(place) && s.offsets[place] <= i64::MAX
                ==> route->Reply_0->FetchOffset_offset == s.offsets[place]
        }),
{
}

/// A heartbeat of a member in the present generation is answered without error
/// and moves that member's clock alone; any other changes nothing and is told
/// why.
pub proof fn law_heartbeat_counts(
    s: BrokerView,
    t: BrokerView,
    req: Request,
    log_end: u64,
    now_ms: u64,
    route: Route,
)
    requires
        req is Heartbeat,
        dispatches(s, t, req, log_end, now_ms, route),
    ensures
        ({
            let gs = s.groups.groups;
            let group = req->Heartbeat_group@;
            let id = req->Heartbeat_member_id@;
            let error = fence(gs, group, id, req->Heartbeat_generation);
            &&& route == Route::Reply(Response::Heartbeat { error })
            &&& t == (BrokerView { groups: t.groups, ..s })
            &&& t.groups.next == s.groups.next
            &&& error != ErrorCode::NoError ==> t == s
            &&& error == ErrorCode::NoError ==> {
                let i = group_at(gs, group)->0;
                let k = member_at(gs[i].members, id)->0;
                let m = gs[i].members[k];
                t.groups.groups == gs.update(
                    i,
                    GroupInfo {
                        members: gs[i].members.update(k, MemberInfo { last: now_ms, ..m }),
                        ..gs[i]
                    },
                )
            }
        }),
{
    let gs = s.groups.groups;
    if fence(gs, req->Heartbeat_group@, req->Heartbeat_member_id@, req->Heartbeat_generation)
        != ErrorCode::NoError {
        assert(t.groups == s.groups);
    }
}

/// The metadata that clients get names every partition of every topic: in a
/// cluster it is what the controller said, and on a broker of its own that
/// broker leads them all.
pub proof fn law_metadata(
    s: BrokerView,
    t: BrokerView,
    req: Request,
    log_end: u64,
    now_ms: u64,
    route: Route,
)
    requires
        req is Metadata,
        dispatches(s, t, req, log_end, now_ms, route),
    ensures
        t == s,
        route is Reply && route->Reply_0 is Metadata,
        route->Reply_0->Metadata_error == ErrorCode::NoError,
        !s.clustered ==> {
            let m = route->Reply_0->Metadata_cluster;
            &&& m.brokers@.len() == 1
            &&& m.brokers@[0].0 == 0
            &&& m.brokers@[0].1@ == s.advertised
            &&& m.topics@.len() == s.topics.len()
            &&& forall|i: int|
                0 <= i < s.topics.len() ==> (#[trigger] m.topics@[i]).name@ == s.topics[i].0
                    && m.topics@[i].partitions@.len() == s.topics[i].1
            &&& forall|i: int, p: int|
                0 <= i < s.topics.len() && 0 <= p < s.topics[i].1 ==> {
                    let part = #[trigger] m.topics@[i].partitions@[p];
                    part.partition == p && part.leader == 0 && part.isr@ == seq![0u32]
                        && part.replicas@ == seq![0u32]
                }
        },
{
}

/// A join is always taken: the answer names the member's id, its group's
/// generation and its share, as they are afterwards, and no other group changes.
pub proof fn law_join_answered(
    s: BrokerView,
    t: BrokerView,
    req: Request,
    log_end: u64,
    now_ms: u64,
    route: Route,
)
    requires
        req is JoinGroup,
        dispatches(s, t, req, log_end, now_ms, route),
        groups_ok(s.groups.groups),
    ensures
        ({
            let name = req->JoinGroup_group@;
            let before = group_or_new(s.groups.groups, name);
            let after = group_or_new(t.groups.groups, name);
            let r = route->Reply_0;
            let id = r->JoinGroup_member_id@;
            &&& route is Reply && r is JoinGroup
            &&& r->JoinGroup_error == ErrorCode::NoError
            &&& r->JoinGroup_generation == after.generation
            &&& after == joined(
                before,
                s.groups.next,
                req->JoinGroup_member_id@,
                req->JoinGroup_session_timeout_ms as u64,
                texts(req->JoinGroup_topics@),
                now_ms,
                partition_counts(s),
            )
            &&& exists|k: int|
                0 <= k < after.members.len() && (#[trigger] after.members[k]).id == id && slots(
                    r->JoinGroup_assignment@,
                ) == after.members[k].assignment
            &&& is_known(before, req->JoinGroup_member_id@) ==> id == req->JoinGroup_member_id@
                && t.groups.next == s.groups.next
            &&& !is_known(before, req->JoinGroup_member_id@) ==> t.groups.next != s.groups.next
            &&& t == (BrokerView { groups: t.groups, ..s })
            &&& forall|other: Seq<char>|
                other != name ==> #[trigger] group_or_new(t.groups.groups, other) == group_or_new(
                    s.groups.groups,
                    other,
                )
        }),
{
    let name = req->JoinGroup_group@;
    let g = group_or_new(s.groups.groups, name);
    lemma_group_at(s.groups.groups, name);
    let h = joined(
        g,
        s.groups.next,
        req->JoinGroup_member_id@,
        req->JoinGroup_session_timeout_ms as u64,
        texts(req->JoinGroup_topics@),
        now_ms,
        partition_counts(s),
    );
    assert(h.name == name);
    law_groups_apart(s.groups.groups, h, name.push('x'));
    let r = route->Reply_0;
    let id = r->JoinGroup_member_id@;
    lemma_member_at(h.members, id);
    let k = member_at(h.members, id)->0;
    assert(h.members[k].id == id && slots(r->JoinGroup_assignment@) == h.members[k].assignment);
    assert(t.groups.groups == with_group(s.groups.groups, h));
    assert(group_or_new(t.groups.groups, name) == h);
    assert forall|other: Seq<char>| other != name implies #[trigger] group_or_new(
        t.groups.groups,
        other,
    ) == group_or_new(s.groups.groups, other) by {
        law_groups_apart(s.groups.groups, h, other);
    }
}

/// A member that leaves is gone and its group in its next generation; anyone
/// else who leaves is unknown, and nothing changes.
pub proof fn law_leave_answered(
    s: BrokerView,
    t: BrokerView,
    req: Request,
    log_end: u64,
    now_ms: u64,
    route: Route,
)
    requires
        req is LeaveGroup,
        dispatches(s, t, req, log_end, now_ms, route),
        groups_ok(s.groups.groups),
        group_room(group_or_new(s.groups.groups, req->LeaveGroup_group@)),
    ensures
        ({
            let name = req->LeaveGroup_group@;
            let id = req->LeaveGroup_member_id@;
            let before = group_or_new(s.groups.groups, name);
            let after = group_or_new(t.groups.groups, name);
            let there = exists|k: int|
                0 <= k < before.members.len() && (#[trigger] before.members[k]).id == id;
            &&& route == Route::Reply(
                Response::LeaveGroup {
                    error: if there {
                        ErrorCode::NoError
                    } else {
                        ErrorCode::UnknownMember
                    },
                },
            )
            &&& !there ==> t == s
            &&& there ==> after.generation == before.generation + 1 && after.members.len()
                == before.members.len() - 1
        }),
{
    let gs = s.groups.groups;
    let name = req->LeaveGroup_group@;
    let id = req->LeaveGroup_member_id@;
    let before = group_or_new(gs, name);
    lemma_group_at(gs, name);
    lemma_member_at(before.members, id);
    law_leave(gs, name, id, partition_counts(s));
    if group_at(gs, name) is None || member_at(before.members, id) is None {
        assert(t.groups == s.groups);
    }
}

} // verus!
