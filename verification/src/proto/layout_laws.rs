//! The bytes of each message, and that no two messages share theirs.

use super::lists::{
    addr_list, addr_vals, id_list, id_vals, name_list, name_vals, slot_list, slot_vals,
};
use super::meta::{cluster_vals, partition_list, partition_vals, topic_list, topic_vals};
use super::request::{produced_list, produced_vals, request_tag, request_vals};
use super::response::{fetched_list, fetched_vals, response_tag, response_vals};
use super::schema::{encode, encode_one, encode_rows, Fault, Shapes, Val, Vals};
use super::{
    frame, opt_view, parse_message, Acks, ClusterMeta, ErrorCode, FetchedRecord, PartitionMeta,
    ProduceRecord, Request, Response, TopicMeta,
};
use crate::codec::{bits32, bits64, le, le_value};
use vstd::prelude::*;
use vstd::utf8::encode_utf8;

verus! {

/// The numbers of error codes and ack levels on the wire.
pub proof fn law_numbers(e: ErrorCode, a: Acks)
    ensures
        match e {
            ErrorCode::NoError => e.number() == 0,
            ErrorCode::UnknownTopicOrPartition => e.number() == 1,
            ErrorCode::OffsetOutOfRange => e.number() == 2,
            ErrorCode::Storage => e.number() == 3,
            ErrorCode::Malformed => e.number() == 4,
            ErrorCode::TopicExists => e.number() == 5,
            ErrorCode::UnknownMember => e.number() == 6,
            ErrorCode::StaleGeneration => e.number() == 7,
            ErrorCode::NotLeader => e.number() == 8,
            ErrorCode::FencedEpoch => e.number() == 9,
            ErrorCode::NotEnoughReplicas => e.number() == 10,
            ErrorCode::Offline => e.number() == 11,
        },
        match a {
            Acks::NoAck => a.number() == 0,
            Acks::Written => a.number() == 1,
            Acks::Durable => a.number() == 2,
            Acks::All => a.number() == 3,
        },
{
}

/// The types of messages are numbered from 1, and a response has the number of
/// its request with the high bit set.
pub proof fn law_tags(x: Request, y: Response)
    ensures
        match x {
            Request::CreateTopic { .. } => request_tag(x) == 1,
            Request::Metadata => request_tag(x) == 2,
            Request::Produce { .. } => request_tag(x) == 3,
            Request::Fetch { .. } => request_tag(x) == 4,
            Request::CommitOffset { .. } => request_tag(x) == 5,
            Request::FetchOffset { .. } => request_tag(x) == 6,
            Request::JoinGroup { .. } => request_tag(x) == 7,
            Request::Heartbeat { .. } => request_tag(x) == 8,
            Request::LeaveGroup { .. } => request_tag(x) == 9,
            Request::ReplicaFetch { .. } => request_tag(x) == 10,
            Request::EpochCheck { .. } => request_tag(x) == 11,
            Request::RegisterBroker { .. } => request_tag(x) == 12,
            Request::BrokerHeartbeat { .. } => request_tag(x) == 13,
            Request::AlterIsr { .. } => request_tag(x) == 14,
            Request::ControllerMetadata => request_tag(x) == 15,
        },
        match y {
            Response::CreateTopic { .. } => response_tag(y) == 128 + 1,
            Response::Metadata { .. } => response_tag(y) == 128 + 2,
            Response::Produce { .. } => response_tag(y) == 128 + 3,
            Response::Fetch { .. } => response_tag(y) == 128 + 4,
            Response::CommitOffset { .. } => response_tag(y) == 128 + 5,
            Response::FetchOffset { .. } => response_tag(y) == 128 + 6,
            Response::JoinGroup { .. } => response_tag(y) == 128 + 7,
            Response::Heartbeat { .. } => response_tag(y) == 128 + 8,
            Response::LeaveGroup { .. } => response_tag(y) == 128 + 9,
            Response::ReplicaFetch { .. } => response_tag(y) == 128 + 10,
            Response::EpochCheck { .. } => response_tag(y) == 128 + 11,
            Response::RegisterBroker { .. } => response_tag(y) == 128 + 12,
            Response::BrokerHeartbeat { .. } => response_tag(y) == 128 + 13,
            Response::AlterIsr { .. } => response_tag(y) == 128 + 14,
            Response::ControllerMetadata { .. } => response_tag(y) == 128 + 15,
        },
{
}

/// A text on the wire: its length in bytes, in 16 bits, and the bytes.
pub open spec fn text(s: Seq<char>) -> Seq<u8> {
    le(encode_utf8(s).len(), 2) + encode_utf8(s)
}

/// A frame: the length of what follows, version 1, the type, the correlation id
/// and the body.
pub proof fn law_frame_layout(tag: u8, corr: u32, body: Vals)
    ensures
        frame(tag, corr, body) == le(6 + encode(body).len(), 4) + le(1, 1) + le(tag as nat, 1) + le(
            corr as nat,
            4,
        ) + encode(body),
{
    reveal_with_fuel(encode, 5);
    crate::codec::lemma_le_len(tag as nat, 1);
    crate::codec::lemma_le_len(1, 1);
    crate::codec::lemma_le_len(corr as nat, 4);
    let m = super::message(tag, corr, body);
    assert(m =~= le(1, 1) + le(tag as nat, 1) + le(corr as nat, 4) + encode(body));
    assert(m.len() == 6 + encode(body).len());
}

/// The fields of each request, in the order in which they are sent.
#[verifier::rlimit(60)]
pub proof fn law_request_layout(x: Request)
    ensures
        ({
            let vals = request_vals(x);
            match x {
                Request::CreateTopic { topic, partitions, replication_factor } =>
                    encode(vals) == text(topic@) + le(partitions as nat, 4)
                        + le(replication_factor as nat, 4),
                Request::Metadata => encode(vals) == Seq::<u8>::empty(),
                Request::Produce { topic, partition, acks, leader_epoch, records } =>
                    encode(vals) == text(topic@) + le(partition as nat, 4)
                        + le(acks.number() as nat, 1) + le(leader_epoch as nat, 8)
                        + encode_one(produced_list(records@)),
                Request::Fetch { topic, partition, offset, max_bytes, max_wait_ms } =>
                    encode(vals) == text(topic@) + le(partition as nat, 4) + le(offset as nat, 8)
                        + le(max_bytes as nat, 4) + le(max_wait_ms as nat, 4),
                Request::CommitOffset { group, topic, partition, offset, member_id, generation } =>
                    encode(vals) == text(group@) + text(topic@) + le(partition as nat, 4)
                        + le(offset as nat, 8) + text(member_id@) + le(generation as nat, 8),
                Request::FetchOffset { group, topic, partition } => encode(vals) == text(group@)
                    + text(topic@) + le(partition as nat, 4),
                Request::JoinGroup { group, member_id, session_timeout_ms, topics } =>
                    encode(vals) == text(group@) + text(member_id@)
                        + le(session_timeout_ms as nat, 4) + encode_one(name_list(topics@)),
                Request::Heartbeat { group, member_id, generation } =>
                    encode(vals) == text(group@) + text(member_id@) + le(generation as nat, 8),
                Request::LeaveGroup { group, member_id } => encode(vals) == text(group@)
                    + text(member_id@),
                Request::ReplicaFetch {
                    topic,
                    partition,
                    follower_id,
                    leader_epoch,
                    offset,
                    max_bytes,
                    max_wait_ms,
                } =>
                    encode(vals) == text(topic@) + le(partition as nat, 4)
                        + le(follower_id as nat, 4) + le(leader_epoch as nat, 8)
                        + le(offset as nat, 8) + le(max_bytes as nat, 4)
                        + le(max_wait_ms as nat, 4),
                Request::EpochCheck { topic, partition, epoch } => encode(vals) == text(topic@)
                    + le(partition as nat, 4) + le(epoch as nat, 8),
                Request::RegisterBroker { broker_id, addr, peer_addr } =>
                    encode(vals) == le(broker_id as nat, 4) + text(addr@) + text(peer_addr@),
                Request::BrokerHeartbeat { broker_id, metadata_version } =>
                    encode(vals) == le(broker_id as nat, 4) + le(metadata_version as nat, 8),
                Request::AlterIsr { topic, partition, leader_epoch, isr } =>
                    encode(vals) == text(topic@) + le(partition as nat, 4)
                        + le(leader_epoch as nat, 8) + encode_one(id_list(isr@)),
                Request::ControllerMetadata => encode(vals) == Seq::<u8>::empty(),
            }
        }),
{
    reveal_with_fuel(encode, 9);
}

/// The fields of each response, in the order in which they are sent.
#[verifier::rlimit(60)]
pub proof fn law_response_layout(x: Response)
    ensures
        ({
            let vals = response_vals(x);
            match x {
                Response::CreateTopic { error } => encode(vals) == le(error.number() as nat, 2),
                Response::Metadata { error, cluster } =>
                    encode(vals) == le(error.number() as nat, 2) + encode(cluster_vals(cluster)),
                Response::Produce { error, base_offset, count } =>
                    encode(vals) == le(error.number() as nat, 2) + le(base_offset as nat, 8)
                        + le(count as nat, 4),
                Response::Fetch { error, log_start, next_offset, records } =>
                    encode(vals) == le(error.number() as nat, 2) + le(log_start as nat, 8)
                        + le(next_offset as nat, 8) + encode_one(fetched_list(records@)),
                Response::CommitOffset { error } => encode(vals) == le(error.number() as nat, 2),
                Response::FetchOffset { error, offset } =>
                    encode(vals) == le(error.number() as nat, 2) + le(bits64(offset), 8),
                Response::JoinGroup { error, member_id, generation, assignment } =>
                    encode(vals) == le(error.number() as nat, 2) + text(member_id@)
                        + le(generation as nat, 8) + encode_one(slot_list(assignment@)),
                Response::Heartbeat { error } => encode(vals) == le(error.number() as nat, 2),
                Response::LeaveGroup { error } => encode(vals) == le(error.number() as nat, 2),
                Response::ReplicaFetch { error, leader_epoch, log_end, high_watermark, records } =>
                    encode(vals) == le(error.number() as nat, 2) + le(leader_epoch as nat, 8)
                        + le(log_end as nat, 8) + le(high_watermark as nat, 8)
                        + encode_one(fetched_list(records@)),
                Response::EpochCheck { error, end_offset } =>
                    encode(vals) == le(error.number() as nat, 2) + le(end_offset as nat, 8),
                Response::RegisterBroker { error, metadata_version } =>
                    encode(vals) == le(error.number() as nat, 2) + le(metadata_version as nat, 8),
                Response::BrokerHeartbeat { error, metadata_version } =>
                    encode(vals) == le(error.number() as nat, 2) + le(metadata_version as nat, 8),
                Response::AlterIsr { error, metadata_version } =>
                    encode(vals) == le(error.number() as nat, 2) + le(metadata_version as nat, 8),
                Response::ControllerMetadata { error, cluster } =>
                    encode(vals) == le(error.number() as nat, 2) + encode(cluster_vals(cluster)),
            }
        }),
{
    reveal_with_fuel(encode, 9);
}

/// A list is its length, in 32 bits, and its rows one after the other.
pub proof fn law_list_layout(rows: Seq<Vals>, row: Vals)
    ensures
        encode_one(Val::List(rows)) == le(rows.len(), 4) + encode_rows(rows),
        encode_rows(rows.push(row)) == encode_rows(rows) + encode(row),
        encode_rows(Seq::<Vals>::empty()) == Seq::<u8>::empty(),
{
    assert(rows.push(row).drop_last() =~= rows);
}

/// A record in a produce is its key and its value, and in a fetch the offset and
/// the timestamp stand before them; a missing key has length -1. A partition in
/// metadata is its number, leader, epoch, replicas and ISR.
pub proof fn law_row_layout(p: ProduceRecord, f: FetchedRecord, m: PartitionMeta)
    ensures
        ({
            let key = match p.key {
                None => le(0xffff_ffff, 4),
                Some(k) => le(k@.len(), 4) + k@,
            };
            encode(produced_vals(p)) == key + le(p.value@.len(), 4) + p.value@
        }),
        ({
            let key = match f.key {
                None => le(0xffff_ffff, 4),
                Some(k) => le(k@.len(), 4) + k@,
            };
            encode(fetched_vals(f)) == le(f.offset as nat, 8) + le(bits64(f.timestamp_ms), 8) + key
                + le(f.value@.len(), 4) + f.value@
        }),
        encode(partition_vals(m)) == le(m.partition as nat, 4) + le(bits32(m.leader), 4) + le(
            m.leader_epoch as nat,
            8,
        ) + encode_one(id_list(m.replicas@)) + encode_one(id_list(m.isr@)),
{
    reveal_with_fuel(encode, 7);
}

pub open spec fn same_bytes(a: Option<Vec<u8>>, b: Option<Vec<u8>>) -> bool {
    &&& a is Some <==> b is Some
    &&& a is Some ==> a->0@ == b->0@
}

pub open spec fn same_produced(a: Seq<ProduceRecord>, b: Seq<ProduceRecord>) -> bool {
    &&& a.len() == b.len()
    &&& forall|i: int|
        0 <= i < a.len() ==> same_bytes((#[trigger] a[i]).key, b[i].key) && a[i].value@
            == b[i].value@
}

pub open spec fn same_fetched(a: Seq<FetchedRecord>, b: Seq<FetchedRecord>) -> bool {
    &&& a.len() == b.len()
    &&& forall|i: int|
        0 <= i < a.len() ==> (#[trigger] a[i]).offset == b[i].offset && a[i].timestamp_ms
            == b[i].timestamp_ms && same_bytes(a[i].key, b[i].key) && a[i].value@ == b[i].value@
}

pub open spec fn same_names(a: Seq<String>, b: Seq<String>) -> bool {
    a.len() == b.len() && forall|i: int| 0 <= i < a.len() ==> (#[trigger] a[i])@ == b[i]@
}

pub open spec fn same_slots(a: Seq<(String, u32)>, b: Seq<(String, u32)>) -> bool {
    a.len() == b.len() && forall|i: int|
        0 <= i < a.len() ==> (#[trigger] a[i]).0@ == b[i].0@ && a[i].1 == b[i].1
}

pub open spec fn same_addrs(a: Seq<(u32, String)>, b: Seq<(u32, String)>) -> bool {
    a.len() == b.len() && forall|i: int|
        0 <= i < a.len() ==> (#[trigger] a[i]).0 == b[i].0 && a[i].1@ == b[i].1@
}

pub open spec fn same_partition(a: PartitionMeta, b: PartitionMeta) -> bool {
    &&& a.partition == b.partition
    &&& a.leader == b.leader
    &&& a.leader_epoch == b.leader_epoch
    &&& a.replicas@ == b.replicas@
    &&& a.isr@ == b.isr@
}

pub open spec fn same_topic(a: TopicMeta, b: TopicMeta) -> bool {
    &&& a.name@ == b.name@
    &&& a.partitions@.len() == b.partitions@.len()
    &&& forall|i: int|
        0 <= i < a.partitions@.len() ==> same_partition(
            #[trigger] a.partitions@[i],
            b.partitions@[i],
        )
}

pub open spec fn same_cluster(a: ClusterMeta, b: ClusterMeta) -> bool {
    &&& a.version == b.version
    &&& same_addrs(a.brokers@, b.brokers@)
    &&& same_addrs(a.peers@, b.peers@)
    &&& a.topics@.len() == b.topics@.len()
    &&& forall|i: int|
        0 <= i < a.topics@.len() ==> same_topic(#[trigger] a.topics@[i], b.topics@[i])
}

/// The same request, field by field.
pub open spec fn same_request(x: Request, y: Request) -> bool {
    match x {
        Request::CreateTopic { topic, partitions, replication_factor } => y is CreateTopic
            && y->CreateTopic_topic@ == topic@ && y->CreateTopic_partitions == partitions
            && y->CreateTopic_replication_factor == replication_factor,
        Request::Metadata => y is Metadata,
        Request::Produce { topic, partition, acks, leader_epoch, records } => y is Produce
            && y->Produce_topic@ == topic@ && y->Produce_partition == partition
            && y->Produce_acks == acks && y->Produce_leader_epoch == leader_epoch
            && same_produced(records@, y->Produce_records@),
        Request::Fetch { topic, partition, offset, max_bytes, max_wait_ms } => y is Fetch
            && y->Fetch_topic@ == topic@ && y->Fetch_partition == partition
            && y->Fetch_offset == offset && y->Fetch_max_bytes == max_bytes
            && y->Fetch_max_wait_ms == max_wait_ms,
        Request::CommitOffset { group, topic, partition, offset, member_id, generation } =>
            y is CommitOffset && y->CommitOffset_group@ == group@
                && y->CommitOffset_topic@ == topic@ && y->CommitOffset_partition == partition
                && y->CommitOffset_offset == offset && y->CommitOffset_member_id@ == member_id@
                && y->CommitOffset_generation == generation,
        Request::FetchOffset { group, topic, partition } => y is FetchOffset
            && y->FetchOffset_group@ == group@ && y->FetchOffset_topic@ == topic@
            && y->FetchOffset_partition == partition,
        Request::JoinGroup { group, member_id, session_timeout_ms, topics } => y is JoinGroup
            && y->JoinGroup_group@ == group@ && y->JoinGroup_member_id@ == member_id@
            && y->JoinGroup_session_timeout_ms == session_timeout_ms
            && same_names(topics@, y->JoinGroup_topics@),
        Request::Heartbeat { group, member_id, generation } => y is Heartbeat
            && y->Heartbeat_group@ == group@ && y->Heartbeat_member_id@ == member_id@
            && y->Heartbeat_generation == generation,
        Request::LeaveGroup { group, member_id } => y is LeaveGroup
            && y->LeaveGroup_group@ == group@ && y->LeaveGroup_member_id@ == member_id@,
        Request::ReplicaFetch {
            topic,
            partition,
            follower_id,
            leader_epoch,
            offset,
            max_bytes,
            max_wait_ms,
        } =>
            y is ReplicaFetch && y->ReplicaFetch_topic@ == topic@
                && y->ReplicaFetch_partition == partition
                && y->ReplicaFetch_follower_id == follower_id
                && y->ReplicaFetch_leader_epoch == leader_epoch && y->ReplicaFetch_offset == offset
                && y->ReplicaFetch_max_bytes == max_bytes
                && y->ReplicaFetch_max_wait_ms == max_wait_ms,
        Request::EpochCheck { topic, partition, epoch } => y is EpochCheck
            && y->EpochCheck_topic@ == topic@ && y->EpochCheck_partition == partition
            && y->EpochCheck_epoch == epoch,
        Request::RegisterBroker { broker_id, addr, peer_addr } => y is RegisterBroker
            && y->RegisterBroker_broker_id == broker_id && y->RegisterBroker_addr@ == addr@
            && y->RegisterBroker_peer_addr@ == peer_addr@,
        Request::BrokerHeartbeat { broker_id, metadata_version } => y is BrokerHeartbeat
            && y->BrokerHeartbeat_broker_id == broker_id
            && y->BrokerHeartbeat_metadata_version == metadata_version,
        Request::AlterIsr { topic, partition, leader_epoch, isr } => y is AlterIsr
            && y->AlterIsr_topic@ == topic@ && y->AlterIsr_partition == partition
            && y->AlterIsr_leader_epoch == leader_epoch && isr@ == y->AlterIsr_isr@,
        Request::ControllerMetadata => y is ControllerMetadata,
    }
}

/// The same response, field by field.
pub open spec fn same_response(x: Response, y: Response) -> bool {
    match x {
        Response::CreateTopic { error } => y is CreateTopic && y->CreateTopic_error == error,
        Response::Metadata { error, cluster } => y is Metadata && y->Metadata_error == error
            && same_cluster(cluster, y->Metadata_cluster),
        Response::Produce { error, base_offset, count } => y is Produce && y->Produce_error == error
            && y->Produce_base_offset == base_offset && y->Produce_count == count,
        Response::Fetch { error, log_start, next_offset, records } => y is Fetch
            && y->Fetch_error == error && y->Fetch_log_start == log_start
            && y->Fetch_next_offset == next_offset && same_fetched(records@, y->Fetch_records@),
        Response::CommitOffset { error } => y is CommitOffset && y->CommitOffset_error == error,
        Response::FetchOffset { error, offset } => y is FetchOffset && y->FetchOffset_error == error
            && y->FetchOffset_offset == offset,
        Response::JoinGroup { error, member_id, generation, assignment } => y is JoinGroup
            && y->JoinGroup_error == error && y->JoinGroup_member_id@ == member_id@
            && y->JoinGroup_generation == generation
            && same_slots(assignment@, y->JoinGroup_assignment@),
        Response::Heartbeat { error } => y is Heartbeat && y->Heartbeat_error == error,
        Response::LeaveGroup { error } => y is LeaveGroup && y->LeaveGroup_error == error,
        Response::ReplicaFetch { error, leader_epoch, log_end, high_watermark, records } =>
            y is ReplicaFetch && y->ReplicaFetch_error == error
                && y->ReplicaFetch_leader_epoch == leader_epoch
                && y->ReplicaFetch_log_end == log_end
                && y->ReplicaFetch_high_watermark == high_watermark
                && same_fetched(records@, y->ReplicaFetch_records@),
        Response::EpochCheck { error, end_offset } => y is EpochCheck
            && y->EpochCheck_error == error && y->EpochCheck_end_offset == end_offset,
        Response::RegisterBroker { error, metadata_version } => y is RegisterBroker
            && y->RegisterBroker_error == error
            && y->RegisterBroker_metadata_version == metadata_version,
        Response::BrokerHeartbeat { error, metadata_version } => y is BrokerHeartbeat
            && y->BrokerHeartbeat_error == error
            && y->BrokerHeartbeat_metadata_version == metadata_version,
        Response::AlterIsr { error, metadata_version } => y is AlterIsr
            && y->AlterIsr_error == error && y->AlterIsr_metadata_version == metadata_version,
        Response::ControllerMetadata { error, cluster } => y is ControllerMetadata
            && y->ControllerMetadata_error == error
            && same_cluster(cluster, y->ControllerMetadata_cluster),
    }
}

proof fn lemma_produced_apart(a: Seq<ProduceRecord>, b: Seq<ProduceRecord>)
    requires
        produced_list(a) == produced_list(b),
    ensures
        same_produced(a, b),
{
    let x = a.map_values(|r: ProduceRecord| produced_vals(r));
    let y = b.map_values(|r: ProduceRecord| produced_vals(r));
    assert(x == y);
    assert(x.len() == a.len() && y.len() == b.len());
    assert forall|i: int| 0 <= i < a.len() implies same_bytes((#[trigger] a[i]).key, b[i].key)
        && a[i].value@ == b[i].value@ by {
        assert(x[i] == y[i]);
        assert(produced_vals(a[i]) == produced_vals(b[i]));
        assert(opt_view(a[i].key) == opt_view(b[i].key));
    }
}

proof fn lemma_fetched_apart(a: Seq<FetchedRecord>, b: Seq<FetchedRecord>)
    requires
        fetched_list(a) == fetched_list(b),
    ensures
        same_fetched(a, b),
{
    let x = a.map_values(|r: FetchedRecord| fetched_vals(r));
    let y = b.map_values(|r: FetchedRecord| fetched_vals(r));
    assert(x == y);
    assert(x.len() == a.len() && y.len() == b.len());
    assert forall|i: int| 0 <= i < a.len() implies (#[trigger] a[i]).offset == b[i].offset
        && a[i].timestamp_ms == b[i].timestamp_ms && same_bytes(a[i].key, b[i].key) && a[i].value@
        == b[i].value@ by {
        assert(x[i] == y[i]);
        assert(fetched_vals(a[i]) == fetched_vals(b[i]));
        assert(opt_view(a[i].key) == opt_view(b[i].key));
    }
}

proof fn lemma_names_apart(a: Seq<String>, b: Seq<String>)
    requires
        name_list(a) == name_list(b),
    ensures
        same_names(a, b),
{
    let x = a.map_values(|r: String| name_vals(r));
    let y = b.map_values(|r: String| name_vals(r));
    assert(x == y);
    assert(x.len() == a.len() && y.len() == b.len());
    assert forall|i: int| 0 <= i < a.len() implies (#[trigger] a[i])@ == b[i]@ by {
        assert(x[i] == y[i]);
    }
}

pub proof fn lemma_ids_apart(a: Seq<u32>, b: Seq<u32>)
    requires
        id_list(a) == id_list(b),
    ensures
        a == b,
{
    let x = a.map_values(|r: u32| id_vals(r));
    let y = b.map_values(|r: u32| id_vals(r));
    assert(x == y);
    assert(x.len() == a.len() && y.len() == b.len());
    assert forall|i: int| 0 <= i < a.len() implies (#[trigger] a[i]) == b[i] by {
        assert(x[i] == y[i]);
    }
}

proof fn lemma_slots_apart(a: Seq<(String, u32)>, b: Seq<(String, u32)>)
    requires
        slot_list(a) == slot_list(b),
    ensures
        same_slots(a, b),
{
    let x = a.map_values(|r: (String, u32)| slot_vals(r));
    let y = b.map_values(|r: (String, u32)| slot_vals(r));
    assert(x == y);
    assert(x.len() == a.len() && y.len() == b.len());
    assert forall|i: int| 0 <= i < a.len() implies (#[trigger] a[i]).0@ == b[i].0@ && a[i].1
        == b[i].1 by {
        assert(x[i] == y[i]);
    }
}

proof fn lemma_addrs_apart(a: Seq<(u32, String)>, b: Seq<(u32, String)>)
    requires
        addr_list(a) == addr_list(b),
    ensures
        same_addrs(a, b),
{
    let x = a.map_values(|r: (u32, String)| addr_vals(r));
    let y = b.map_values(|r: (u32, String)| addr_vals(r));
    assert(x == y);
    assert(x.len() == a.len() && y.len() == b.len());
    assert forall|i: int| 0 <= i < a.len() implies (#[trigger] a[i]).0 == b[i].0 && a[i].1@
        == b[i].1@ by {
        assert(x[i] == y[i]);
    }
}

proof fn lemma_topic_apart(a: TopicMeta, b: TopicMeta)
    requires
        topic_vals(a) == topic_vals(b),
    ensures
        same_topic(a, b),
{
    let p = a.partitions@;
    let q = b.partitions@;
    let x = p.map_values(|r: PartitionMeta| partition_vals(r));
    let y = q.map_values(|r: PartitionMeta| partition_vals(r));
    assert(partition_list(p) == partition_list(q));
    assert(x == y);
    assert(x.len() == p.len() && y.len() == q.len());
    assert forall|i: int| 0 <= i < p.len() implies same_partition(#[trigger] p[i], q[i]) by {
        assert(x[i] == y[i]);
        assert(partition_vals(p[i]) == partition_vals(q[i]));
        lemma_ids_apart(p[i].replicas@, q[i].replicas@);
        lemma_ids_apart(p[i].isr@, q[i].isr@);
    }
}

proof fn lemma_cluster_apart(a: ClusterMeta, b: ClusterMeta)
    requires
        cluster_vals(a) == cluster_vals(b),
    ensures
        same_cluster(a, b),
{
    lemma_addrs_apart(a.brokers@, b.brokers@);
    lemma_addrs_apart(a.peers@, b.peers@);
    let p = a.topics@;
    let q = b.topics@;
    let x = p.map_values(|r: TopicMeta| topic_vals(r));
    let y = q.map_values(|r: TopicMeta| topic_vals(r));
    assert(topic_list(p) == topic_list(q));
    assert(x == y);
    assert(x.len() == p.len() && y.len() == q.len());
    assert forall|i: int| 0 <= i < p.len() implies same_topic(#[trigger] p[i], q[i]) by {
        assert(x[i] == y[i]);
        lemma_topic_apart(p[i], q[i]);
    }
}

/// No field of a request is lost on the way: two requests whose frames hold the
/// same type and fields are the same request.
#[verifier::rlimit(60)]
pub proof fn law_requests_apart(x: Request, y: Request)
    requires
        request_tag(x) == request_tag(y),
        request_vals(x) == request_vals(y),
    ensures
        same_request(x, y),
{
    match x {
        Request::Produce { records, .. } => lemma_produced_apart(records@, y->Produce_records@),
        Request::JoinGroup { topics, .. } => lemma_names_apart(topics@, y->JoinGroup_topics@),
        Request::AlterIsr { isr, .. } => lemma_ids_apart(isr@, y->AlterIsr_isr@),
        _ => {},
    }
}

proof fn lemma_codes_apart(a: ErrorCode, b: ErrorCode)
    requires
        a.number() == b.number(),
    ensures
        a == b,
{
}

proof fn lemma_response_kind(x: Response, y: Response)
    requires
        response_tag(x) == response_tag(y),
    ensures
        x is CreateTopic <==> y is CreateTopic,
        x is Metadata <==> y is Metadata,
        x is Produce <==> y is Produce,
        x is Fetch <==> y is Fetch,
        x is CommitOffset <==> y is CommitOffset,
        x is FetchOffset <==> y is FetchOffset,
        x is JoinGroup <==> y is JoinGroup,
        x is Heartbeat <==> y is Heartbeat,
        x is LeaveGroup <==> y is LeaveGroup,
        x is ReplicaFetch <==> y is ReplicaFetch,
        x is EpochCheck <==> y is EpochCheck,
        x is RegisterBroker <==> y is RegisterBroker,
        x is BrokerHeartbeat <==> y is BrokerHeartbeat,
        x is AlterIsr <==> y is AlterIsr,
        x is ControllerMetadata <==> y is ControllerMetadata,
{
}

/// No field of a response is lost on the way: two responses whose frames hold
/// the same type and fields are the same response.
#[verifier::rlimit(60)]
pub proof fn law_responses_apart(x: Response, y: Response)
    requires
        response_tag(x) == response_tag(y),
        response_vals(x) == response_vals(y),
    ensures
        same_response(x, y),
{
    lemma_response_kind(x, y);
    match x {
        Response::CreateTopic { error } => {
            lemma_codes_apart(error, y->CreateTopic_error);
        },
        Response::Metadata { error, cluster } => {
            lemma_codes_apart(error, y->Metadata_error);
            lemma_cluster_apart(cluster, y->Metadata_cluster);
        },
        Response::Produce { error, .. } => {
            lemma_codes_apart(error, y->Produce_error);
        },
        Response::Fetch { error, records, .. } => {
            lemma_codes_apart(error, y->Fetch_error);
            lemma_fetched_apart(records@, y->Fetch_records@);
        },
        Response::CommitOffset { error } => {
            lemma_codes_apart(error, y->CommitOffset_error);
        },
        Response::FetchOffset { error, .. } => {
            lemma_codes_apart(error, y->FetchOffset_error);
        },
        Response::JoinGroup { error, assignment, .. } => {
            lemma_codes_apart(error, y->JoinGroup_error);
            lemma_slots_apart(assignment@, y->JoinGroup_assignment@);
        },
        Response::Heartbeat { error } => {
            lemma_codes_apart(error, y->Heartbeat_error);
        },
        Response::LeaveGroup { error } => {
            lemma_codes_apart(error, y->LeaveGroup_error);
        },
        Response::ReplicaFetch { error, records, .. } => {
            lemma_codes_apart(error, y->ReplicaFetch_error);
            lemma_fetched_apart(records@, y->ReplicaFetch_records@);
        },
        Response::EpochCheck { error, .. } => {
            lemma_codes_apart(error, y->EpochCheck_error);
        },
        Response::RegisterBroker { error, .. } => {
            lemma_codes_apart(error, y->RegisterBroker_error);
        },
        Response::BrokerHeartbeat { error, .. } => {
            lemma_codes_apart(error, y->BrokerHeartbeat_error);
        },
        Response::AlterIsr { error, .. } => {
            lemma_codes_apart(error, y->AlterIsr_error);
        },
        Response::ControllerMetadata { error, cluster } => {
            lemma_codes_apart(error, y->ControllerMetadata_error);
            lemma_cluster_apart(cluster, y->ControllerMetadata_cluster);
        },
    }
}

/// A message of another version, or of a type that is not known, is refused,
/// and told so.
pub proof fn law_foreign_refused(s: Seq<u8>, shape_of: spec_fn(u8) -> Option<Shapes>)
    ensures
        s.len() >= 1 && s[0] != 1 ==> parse_message(s, shape_of) == Err::<(u32, u8, Vals), Fault>(
            Fault::BadVersion(s[0]),
        ),
        s.len() >= 6 && s[0] == 1 && shape_of(s[1]) is None ==> parse_message(s, shape_of) == Err::<
            (u32, u8, Vals),
            Fault,
        >(Fault::UnknownMsgType(s[1])),
{
    reveal_with_fuel(crate::codec::le_value, 2);
    if s.len() >= 1 {
        assert(s.take(1)[0] == s[0]);
        assert(le_value(s.take(1)) == s[0]);
    }
    if s.len() >= 2 {
        let t = s.skip(1);
        assert(t.take(1)[0] == s[1]);
        assert(le_value(t.take(1)) == s[1]);
    }
}

} // verus!
