use std::collections::HashSet;

use replog::client::cluster::{
    after_create, after_failed_fetch, after_failed_produce, drops_connection, CreateStep, RetryStep,
};
use replog::client::group::{after_commit, after_heartbeat, joined, CommitTurn, HeartbeatTurn};
use replog::client::{
    partition_for_key, ClientError, ClusterClient, Connection, GroupConsumer, Producer,
    TopicProducer,
};
use replog::proto::{
    Acks, ClusterMeta, ErrorCode, FetchedRecord, PartitionMeta, Request, Response, TopicMeta,
};

#[test]
fn keyed_partitioning_is_stable() {
    for partitions in [1u32, 2, 4, 16] {
        let mut hit = HashSet::new();
        for i in 0..1000 {
            let key = format!("key-{i}").into_bytes();
            let p = partition_for_key(&key, partitions);
            assert_eq!(p, partition_for_key(&key, partitions), "must be stable");
            assert!(p < partitions);
            hit.insert(p);
        }
        assert_eq!(
            hit.len(),
            partitions as usize,
            "1000 keys must hit all {partitions} partitions"
        );
    }
}

#[test]
fn keys_hash_with_crc32() {
    assert_eq!(partition_for_key(b"123456789", 1000), 0xCBF4_3926 % 1000);
}

#[test]
fn a_producer_ships_full_batches() {
    let mut p = Producer::new("t".to_string(), 3, Acks::Written, 2);
    assert!(p.send(None, b"a".to_vec()).is_none());
    match p.send(Some(b"k".to_vec()), b"b".to_vec()) {
        Some(Request::Produce { topic, partition: 3, acks: Acks::Written, records, .. }) => {
            assert_eq!(topic, "t");
            assert_eq!(records.len(), 2);
            assert_eq!(records[1].key, Some(b"k".to_vec()));
        }
        other => panic!("unexpected {other:?}"),
    }
    assert!(p.flush().is_none());
    p.send(None, b"c".to_vec());
    assert!(p.flush().is_some());
}

#[test]
fn records_of_one_key_stay_together() {
    let mut p = TopicProducer::new("t".to_string(), Acks::Written, 1, 4);
    assert_eq!(p.partitions(), 4);
    let (home, _) = p.send(Some(b"key-1".to_vec()), b"a".to_vec()).unwrap();
    assert_eq!(home, partition_for_key(b"key-1", 4));
    for i in 0..9u8 {
        p.send(None, vec![i]);
        let (again, _) = p.send(Some(b"key-1".to_vec()), vec![i]).unwrap();
        assert_eq!(again, home);
    }
}

fn meta(version: u64, leader: i32) -> ClusterMeta {
    ClusterMeta {
        version,
        brokers: vec![(0, "a:1".to_string()), (1, "b:1".to_string())],
        peers: Vec::new(),
        topics: vec![TopicMeta {
            name: "t".to_string(),
            partitions: vec![PartitionMeta {
                partition: 0,
                leader,
                leader_epoch: version,
                replicas: vec![0, 1],
                isr: vec![0, 1],
            }],
        }],
    }
}

#[test]
fn the_newest_metadata_wins() {
    let mut c = ClusterClient::new(vec!["a:1".to_string(), "b:1".to_string()]);
    // A zombie's stale answer comes first, and loses.
    assert!(c.refresh_metadata(vec![Ok(meta(3, 0)), Err(ClientError::Closed), Ok(meta(5, 1))]).is_ok());
    assert_eq!(c.leader_for("t", 0), Some(("b:1".to_string(), 5)));
    assert_eq!(c.leader_for("u", 0), None);
    assert!(c.refresh_metadata(vec![Err(ClientError::Closed)]).is_err());
    assert_eq!(c.metadata().version, 5);
    assert!(c.candidates().contains(&"a:1".to_string()));
}

#[test]
fn transient_failures_are_retried() {
    let not_leader = || ClientError::Broker(ErrorCode::NotLeader);
    assert!(matches!(after_failed_produce(not_leader(), true), RetryStep::Again));
    assert!(matches!(after_failed_produce(not_leader(), false), RetryStep::Fail(_)));
    assert!(matches!(
        after_failed_produce(ClientError::Broker(ErrorCode::Malformed), true),
        RetryStep::Fail(ClientError::Broker(ErrorCode::Malformed))
    ));
    assert!(matches!(after_failed_fetch(ClientError::Closed, true), RetryStep::Again));
    assert!(matches!(
        after_failed_fetch(ClientError::Broker(ErrorCode::OffsetOutOfRange), true),
        RetryStep::Fail(_)
    ));
    assert!(drops_connection(&ClientError::Closed));
    assert!(!drops_connection(&not_leader()));
    assert!(matches!(after_create(Ok(())), CreateStep::Done));
    assert!(matches!(
        after_create(Err(ClientError::Broker(ErrorCode::TopicExists))),
        CreateStep::Fail(_)
    ));
    assert!(matches!(after_create(Err(ClientError::Closed)), CreateStep::Next));
}

#[test]
fn client_errors_have_messages() {
    assert_eq!(ClientError::Closed.message(), "connection closed");
    assert_eq!(ClientError::Broker(ErrorCode::NotLeader).message(), "broker error: NotLeader");
    assert_eq!(ClientError::Io("gone".to_string()).message(), "io: gone");
}

#[test]
fn a_group_member_keeps_its_place() {
    let mut c = GroupConsumer::new("g".to_string(), vec!["t".to_string()], 3000, 0);
    let joined = match joined(Response::JoinGroup {
        error: ErrorCode::NoError,
        member_id: "m-1".to_string(),
        generation: 4,
        assignment: vec![("t".to_string(), 0), ("t".to_string(), 1)],
    }) {
        Ok(j) => j,
        Err(e) => panic!("{}", e.message()),
    };
    c.rejoin(joined, &vec![Some(10), None], 0);
    assert_eq!((c.member_id(), c.generation()), ("m-1", 4));
    assert_eq!(c.assignment().len(), 2);
    assert!(c.maybe_heartbeat(999).is_none());
    assert!(matches!(
        c.maybe_heartbeat(1000),
        Some(Request::Heartbeat { generation: 4, .. })
    ));
    c.heartbeat_done(1000);
    assert!(c.maybe_heartbeat(1000).is_none());
    // Partitions take turns.
    c.set_max_bytes(77);
    let (first, req) = c.poll().unwrap();
    assert!(matches!(req, Request::Fetch { max_bytes: 77, .. }));
    let (second, req) = c.poll().unwrap();
    assert_ne!(first, second);
    let at = match req {
        Request::Fetch { partition, offset, .. } => {
            assert_eq!(offset, if partition == 0 { 10 } else { 0 });
            second
        }
        other => panic!("unexpected {other:?}"),
    };
    c.polled(at, &vec![FetchedRecord { offset: 41, timestamp_ms: 0, key: None, value: vec![] }]);
    match c.commit(at) {
        Request::CommitOffset { offset: 42, generation: 4, member_id, .. } => {
            assert_eq!(member_id, "m-1");
        }
        other => panic!("unexpected {other:?}"),
    }
    assert!(matches!(
        after_heartbeat(Response::Heartbeat { error: ErrorCode::StaleGeneration }),
        HeartbeatTurn::Rejoin
    ));
    assert!(matches!(
        after_commit(Err(ClientError::Broker(ErrorCode::UnknownMember))),
        CommitTurn::Rejoin(ErrorCode::UnknownMember)
    ));
}

/// Once a connection has died, calls in flight and calls to come are over.
#[test]
fn a_call_on_a_dead_connection_fails_at_once() {
    let mut conn = Connection::new();
    assert!(conn.call_start(&Request::Metadata, 7).is_ok());
    conn.close();
    assert_eq!(conn.deliver(1), None);
    assert!(matches!(conn.call_start(&Request::Metadata, 8), Err(ClientError::Closed)));
    assert_eq!(conn.deliver(2), None);
    assert!(matches!(conn.call_start(&Request::Metadata, 9), Err(ClientError::Closed)));
}
