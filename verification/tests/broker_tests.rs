use replog::broker::fetch::{
    commit_response, created_response, epoch_response, parked_response, produce_response,
};
use replog::broker::groups::GroupCoordinator;
use replog::broker::layout::{scan_data_dir, topics_to_open, valid_topic_name, DirEntry};
use replog::broker::offsets::{decode_entry, encode_key, encode_offset, OffsetsStore};
use replog::broker::partition::Writer;
use replog::broker::BrokerError;
use replog::client::ClientError;
use replog::controller::serve::{Controller, Served};
use replog::controller::ControllerConfig;
use replog::proto::{encode_request, Acks, ErrorCode, ProduceRecord, Request, Response};
use replog::storage::log::FileOp;
use replog::storage::{EpochCheckpoint, FsyncPolicy, Log, LogConfig, Record, StorageError};

fn dirs(names: &[&str]) -> Vec<DirEntry> {
    names.iter().map(|n| DirEntry { name: n.to_string(), is_dir: true }).collect()
}

#[test]
fn a_data_dir_names_its_topics() {
    let found = scan_data_dir(&dirs(&["b-0", "a-b-1", ".hidden", "a-b-0", "__offsets-0"])).unwrap();
    assert_eq!(found, [("b".to_string(), 1), ("a-b".to_string(), 2), ("__offsets".to_string(), 1)]);
    assert_eq!(topics_to_open(&found, false), [("b".to_string(), 1), ("a-b".to_string(), 2)]);
    assert!(topics_to_open(&found, true).is_empty());
}

#[test]
fn a_foreign_data_dir_is_refused() {
    let refused = |names: &[&str]| scan_data_dir(&dirs(names)).unwrap_err();
    assert_eq!(refused(&["junk"]), "directory junk is not <topic>-<partition>");
    assert_eq!(refused(&["t-x"]), "directory t-x has a non-numeric partition suffix");
    assert_eq!(
        refused(&["t-2", "t-0"]),
        "topic t partitions are not contiguous from 0: [0, 2]"
    );
    let file = vec![DirEntry { name: "notes".to_string(), is_dir: false }];
    assert_eq!(scan_data_dir(&file).unwrap_err(), "unexpected file notes in data dir");
}

#[test]
fn topic_names_are_checked() {
    assert!(valid_topic_name("a.B-9_z"));
    assert!(!valid_topic_name(""));
    assert!(!valid_topic_name("__offsets"));
    assert!(!valid_topic_name("a b"));
    assert!(!valid_topic_name("é"));
    assert!(valid_topic_name(&"x".repeat(200)));
    assert!(!valid_topic_name(&"x".repeat(201)));
}

#[test]
fn broker_errors_have_messages() {
    assert_eq!(BrokerError::Io("gone".into()).message(), "io: gone");
    assert_eq!(
        BrokerError::Storage(StorageError::OffsetOutOfRange(7)).message(),
        "storage: offset 7 out of range"
    );
    assert_eq!(
        BrokerError::InvalidLayout("odd".into()).message(),
        "invalid data dir layout: odd"
    );
    assert_eq!(
        BrokerError::OffsetsReplay(ErrorCode::Storage).message(),
        "offsets replay failed: Storage"
    );
}

#[test]
fn the_last_commit_wins() {
    let record = |offset: u64, key: Option<Vec<u8>>, value: Vec<u8>| Record {
        offset,
        timestamp_ms: 0,
        key,
        value,
    };
    let key = encode_key("g", "t", 3);
    assert_eq!(key, [1, 0, b'g', 1, 0, b't', 3, 0, 0, 0]);
    assert_eq!(
        decode_entry(&key, &encode_offset(9)),
        Some((("g".to_string(), "t".to_string(), 3), 9))
    );
    assert_eq!(decode_entry(&key, &[1, 2]), None);
    let mut store = OffsetsStore::new();
    let next = store.replay(&vec![
        record(0, Some(key.clone()), encode_offset(5)),
        record(1, None, encode_offset(6)),
        record(2, Some(vec![1]), encode_offset(7)),
        record(3, Some(key), encode_offset(8)),
    ]);
    assert_eq!(next, Some(4));
    assert_eq!(store.replay(&Vec::new()), None);
    assert_eq!(store.fetch("g", "t", 3), Some(8));
    assert_eq!(store.fetch("g", "t", 4), None);
    store.commit("g".into(), "t".into(), 3, 2);
    assert_eq!(store.fetch("g", "t", 3), Some(2));
}

#[test]
fn answers_carry_what_the_writer_said() {
    assert_eq!(
        produce_response(Ok((7, 2))),
        Response::Produce { error: ErrorCode::NoError, base_offset: 7, count: 2 }
    );
    assert_eq!(
        parked_response(None),
        Response::Produce { error: ErrorCode::NotEnoughReplicas, base_offset: 0, count: 0 }
    );
    assert_eq!(parked_response(Some(Ok((1, 1)))), produce_response(Ok((1, 1))));
    assert_eq!(commit_response(Ok((3, 1))), Response::CommitOffset { error: ErrorCode::NoError });
    assert_eq!(
        commit_response(Err(ErrorCode::Storage)),
        Response::CommitOffset { error: ErrorCode::Storage }
    );
    assert_eq!(
        epoch_response(Ok(12)),
        Response::EpochCheck { error: ErrorCode::NoError, end_offset: 12 }
    );
    assert_eq!(
        epoch_response(Err(ErrorCode::Storage)),
        Response::EpochCheck { error: ErrorCode::Storage, end_offset: 0 }
    );
    let exists = Response::CreateTopic { error: ErrorCode::TopicExists };
    let failed = Response::CreateTopic { error: ErrorCode::Storage };
    assert_eq!(created_response(Some(Ok(exists.clone()))), exists);
    assert_eq!(created_response(Some(Err(ClientError::Closed))), failed);
    assert_eq!(created_response(Some(Ok(commit_response(Ok((0, 1)))))), failed);
    assert_eq!(created_response(None), failed);
}

fn writer(fsync: FsyncPolicy) -> Writer {
    let config = LogConfig { fsync, ..LogConfig::default() };
    let (log, ops) = Log::open(&Vec::new(), config, 0).unwrap();
    assert!(matches!(ops[..], [FileOp::Create { base: 0 }]));
    Writer::new(log, EpochCheckpoint::load(None).unwrap())
}

fn one(value: &[u8]) -> Vec<ProduceRecord> {
    vec![ProduceRecord { key: None, value: value.to_vec() }]
}

#[test]
fn a_lone_durable_ack_waits_for_the_group_commit_only() {
    let mut w = writer(FsyncPolicy::Batch { max_bytes: 1 << 20, max_ms: 50 });
    assert_eq!(w.wait_ms(0), 500);
    let step = w.append(one(b"x"), Acks::Durable, Some(4), 0, 10);
    assert!(step.replies.is_empty());
    assert!(!step.ops.iter().any(|op| matches!(op, FileOp::Sync { .. })));
    assert_eq!(w.wait_ms(40), 20);
    assert_eq!(w.wait_ms(200), 1);
    assert!(w.tick(59).is_none());
    let step = w.tick(60).unwrap();
    assert!(matches!(step.ops[..], [FileOp::Sync { base: 0 }]));
    assert_eq!(step.replies.len(), 1);
    assert_eq!(step.replies[0].ticket, 4);
    assert_eq!(step.replies[0].result, Ok((0, 1)));
    assert!(w.tick(1000).is_none());
}

/// The writer alone keeps the time of a group commit: the first append after a
/// quiet gap opens one, and does not pay for a flush of its own.
#[test]
fn an_append_after_a_gap_opens_a_group_commit() {
    let mut w = writer(FsyncPolicy::Batch { max_bytes: 100, max_ms: 50 });
    let step = w.append(one(b"x"), Acks::Durable, Some(1), 0, 10_000);
    assert!(step.replies.is_empty());
    assert!(!step.ops.iter().any(|op| matches!(op, FileOp::Sync { .. })));
    assert_eq!(w.wait_ms(10_000), 50);
    // Size still ends it.
    let step = w.append(one(&[b'x'; 80]), Acks::Durable, Some(2), 0, 10_001);
    assert!(matches!(step.ops[..], [FileOp::Append { .. }, FileOp::Sync { base: 0 }]));
    let tickets: Vec<u64> = step.replies.iter().map(|r| r.ticket).collect();
    assert_eq!(tickets, [2, 1]);
}

#[test]
fn a_writer_that_never_flushes_acks_what_is_written() {
    let mut w = writer(FsyncPolicy::Os);
    let step = w.append(one(b"x"), Acks::Durable, Some(1), 0, 0);
    assert_eq!(step.replies.len(), 1);
    assert_eq!(step.replies[0].result, Ok((0, 1)));
    let step = w.append(Vec::new(), Acks::Written, Some(2), 0, 0);
    assert_eq!(step.replies[0].result, Ok((1, 0)));
}

#[test]
fn a_truncated_writer_fails_what_it_cut_off() {
    let mut w = writer(FsyncPolicy::Batch { max_bytes: 1 << 20, max_ms: 50 });
    assert_eq!(w.record_epoch(3).unwrap().len(), 16);
    let mut file = Vec::new();
    for i in 0..3 {
        let step = w.append(one(b"x"), Acks::Durable, Some(i), 0, 0);
        for op in step.ops {
            if let FileOp::Append { log, .. } = op {
                file.extend_from_slice(&log);
            }
        }
    }
    assert_eq!(w.record_epoch(4).unwrap().len(), 16);
    assert!(w.record_epoch(4).unwrap().is_empty());
    assert!(w.record_epoch(2).is_err());
    assert_eq!(w.epoch_status(), (4, 3));
    assert_eq!(w.epoch_end_for(3), 3);
    assert!(w.log().can_truncate());
    let span = w.log().truncation_span(1).unwrap();
    assert_eq!((span.position, span.len), (0, file.len() as u64));
    let done = match w.truncate_to(1, &file, 10) {
        Ok(done) => done,
        Err(e) => panic!("{e:?}"),
    };
    assert_eq!(done.checkpoint.unwrap().len(), 16);
    let mut failed: Vec<u64> = done.replies.iter().filter(|r| r.result.is_err()).map(|r| r.ticket).collect();
    failed.sort_unstable();
    assert_eq!(failed, [1, 2]);
    assert_eq!(w.epoch_status(), (3, 1));
}

#[test]
fn a_controller_refuses_a_broken_snapshot() {
    let config =
        || ControllerConfig { state_file: "controller.state".into(), session_timeout_ms: 700 };
    let refused = |bytes: &[u8]| match Controller::new(config(), Some(bytes)) {
        Err(text) => text,
        Ok(_) => panic!("loaded"),
    };
    assert_eq!(refused(&[1, 2]), "truncated");
    assert_eq!(refused(&[0; 12]), "bad snapshot magic");
    let mut controller = Controller::new(config(), None).unwrap_or_else(|e| panic!("{e}"));
    let req = Request::RegisterBroker {
        broker_id: 1,
        addr: "a:1".into(),
        peer_addr: "b:2".into(),
    };
    let snapshot = match controller.serve(&encode_request(&req, 1)[4..], 0) {
        Served::Reply { snapshot: Some(bytes), .. } => bytes,
        _ => panic!("no snapshot"),
    };
    assert!(Controller::new(config(), Some(&snapshot)).is_ok());
    let cut = refused(&snapshot[..snapshot.len() - 1]);
    assert!(cut.starts_with("malformed snapshot: "), "{cut}");
    assert!(matches!(controller.serve(&[9, 9], 0), Served::Undecodable(_)));
}

/// A heartbeat in an old generation is told so, and does not keep its member
/// alive.
#[test]
fn a_stale_heartbeat_refreshes_nothing() {
    let counts = vec![("t".to_string(), 2)];
    let topics = || vec!["t".to_string()];
    let mut groups = GroupCoordinator::new();
    let first = groups.join("g", "", 1000, topics(), &counts, 0);
    let second = groups.join("g", "", 1000, topics(), &counts, 0);
    let (old, now) = (first.generation, second.generation);
    assert_eq!(now, old + 1);

    assert_eq!(groups.heartbeat("g", &first.member_id, old, 900), ErrorCode::StaleGeneration);
    assert_eq!(groups.heartbeat("g", &second.member_id, now, 900), ErrorCode::NoError);
    assert!(groups.has_room() && groups.is_countable(1001));
    assert_eq!(groups.expire(&counts, 1001), 1);
    assert_eq!(groups.heartbeat("g", &first.member_id, now + 1, 1001), ErrorCode::UnknownMember);
    assert_eq!(groups.heartbeat("g", &second.member_id, now + 1, 1001), ErrorCode::NoError);
}

#[test]
fn a_leave_is_owed_once() {
    let counts = vec![("t".to_string(), 2)];
    let mut groups = GroupCoordinator::new();
    let a = groups.join("g", "", 1000, vec!["t".to_string()], &counts, 0);
    let b = groups.join("g", "", 1000, vec!["t".to_string()], &counts, 0);
    assert_eq!(groups.leave("g", "nobody", &counts), ErrorCode::UnknownMember);
    assert_eq!(groups.leave("h", &a.member_id, &counts), ErrorCode::UnknownMember);
    assert!(groups.has_room_in("g"));
    assert_eq!(groups.leave("g", &a.member_id, &counts), ErrorCode::NoError);
    assert_eq!(groups.leave("g", &a.member_id, &counts), ErrorCode::UnknownMember);
    // A rejoin changes nothing, and shows what the other's leave brought.
    let again = groups.join("g", &b.member_id, 1000, vec!["t".to_string()], &counts, 5);
    assert_eq!(again.member_id, b.member_id);
    assert_eq!(again.generation, b.generation + 1);
    assert_eq!(again.assignment, vec![("t".to_string(), 0), ("t".to_string(), 1)]);
    assert_eq!(groups.heartbeat("g", &b.member_id, again.generation, 6), ErrorCode::NoError);
}
