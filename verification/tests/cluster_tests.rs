use std::collections::{BTreeMap, HashMap, HashSet};

use replog::broker::cluster::{
    epoch_check_request, pull, reconcile, replica_fetch_request, FetchStep, Pending,
};
use replog::broker::dispatch::{AckWait, Route};
use replog::broker::fetch::{
    all_turn, committed_answer, committed_turn, fetch_turn, parked_response, produce_response,
    replica_turn, AllTurn, CommittedTurn, FetchTurn,
};
use replog::broker::offsets::{encode_key, encode_offset, OffsetsStore};
use replog::broker::partition::{AppendResult, ReadOk, Writer};
use replog::broker::runtime::{after_heartbeat, is_replica, metadata_in, HeartbeatStep, Start};
use replog::broker::{Broker, BrokerConfig};
use replog::checker::History;
use replog::client::group::{
    after_commit, after_heartbeat as after_member_heartbeat, joined, CommitTurn, HeartbeatTurn,
};
use replog::client::{partition_for_key, TopicProducer};
use replog::client::{ClientError, Connection, Consumer, GroupConsumer};
use replog::controller::serve::{Controller, Served};
use replog::controller::ControllerConfig;
use replog::harness::{isr_of, leader_of};
use replog::proto::{
    decode_request, decode_response, encode_request, try_encode_response, Acks, ClusterMeta,
    ErrorCode, FetchedRecord, ProduceRecord, Request, Response,
};
use replog::storage::log::{FileOp, SegmentFile};
use replog::storage::{EpochCheckpoint, FsyncPolicy, Log, LogConfig, Record};

/// The files of one partition, in memory.
#[derive(Clone, Default)]
struct Files {
    segments: BTreeMap<u64, (Vec<u8>, Vec<u8>)>,
    epochs: Vec<u8>,
}

impl Files {
    fn apply(&mut self, ops: Vec<FileOp>) {
        for op in ops {
            match op {
                FileOp::Create { base } => {
                    self.segments.insert(base, (Vec::new(), Vec::new()));
                }
                FileOp::Append { base, log, index } => {
                    let s = self.segments.get_mut(&base).unwrap();
                    s.0.extend_from_slice(&log);
                    s.1.extend_from_slice(&index);
                }
                FileOp::Sync { .. } => {}
                FileOp::Truncate { base, len } => {
                    self.segments.get_mut(&base).unwrap().0.truncate(len as usize);
                }
                FileOp::Reindex { base, index } => {
                    self.segments.get_mut(&base).unwrap().1 = index;
                }
                FileOp::Remove { base } => {
                    self.segments.remove(&base).unwrap();
                }
            }
        }
    }
}

struct Part {
    writer: Writer,
    files: Files,
}

impl Part {
    fn open(mut files: Files, config: LogConfig, now: u64) -> Part {
        let list: Vec<SegmentFile> = files
            .segments
            .iter()
            .map(|(base, (log, index))| SegmentFile {
                base: *base,
                log: log.clone(),
                index: Some(index.clone()),
            })
            .collect();
        for f in &list {
            assert!(f.is_openable());
        }
        let (log, ops) = Log::open(&list, config, now).unwrap();
        files.apply(ops);
        let epochs = EpochCheckpoint::load(Some(&files.epochs)).unwrap();
        Part { writer: Writer::new(log, epochs), files }
    }

    fn end(&self) -> u64 {
        self.writer.log().next_offset()
    }

    fn read(&self, offset: u64, max_bytes: u64) -> Result<ReadOk, ErrorCode> {
        let buf = match self.writer.log().read_span(offset) {
            Some(s) => {
                self.files.segments[&s.base].0[s.position as usize..(s.position + s.len) as usize]
                    .to_vec()
            }
            None => Vec::new(),
        };
        self.writer.read(offset, max_bytes, &buf)
    }

    fn all(&self) -> Vec<Record> {
        let mut out: Vec<Record> = Vec::new();
        while (out.len() as u64) < self.end() {
            out.extend(self.read(out.len() as u64, 1 << 20).unwrap().records);
        }
        out
    }
}

struct Fetcher {
    topic: String,
    partition: u32,
    generation: u64,
    epoch: u64,
    leader: String,
    reconciled: bool,
}

enum Answer {
    Now(Response),
    Parked(u64),
    Silent,
    Controller(Request),
}

struct Node {
    addr: String,
    broker: Broker,
    config: LogConfig,
    parts: BTreeMap<(String, u32), Part>,
    offsets_log: Part,
    acked: HashMap<u64, AppendResult>,
    next_ticket: u64,
    version: u64,
    fetchers: Vec<Fetcher>,
}

fn place(req: &Request) -> Option<(String, u32)> {
    match req {
        Request::Produce { topic, partition, .. }
        | Request::Fetch { topic, partition, .. }
        | Request::ReplicaFetch { topic, partition, .. }
        | Request::AlterIsr { topic, partition, .. }
        | Request::EpochCheck { topic, partition, .. } => Some((topic.clone(), *partition)),
        _ => None,
    }
}

impl Node {
    fn start(
        config: BrokerConfig,
        addr: &str,
        disks: BTreeMap<(String, u32), Files>,
        offsets: Files,
    ) -> Node {
        let log = config.log.clone();
        let offsets_log = Part::open(offsets, log.clone(), 0);
        let mut store = OffsetsStore::new();
        let mut at = 0;
        while at < offsets_log.end() {
            let got = offsets_log.read(at, 1 << 20).unwrap().records;
            at = store.replay(&got).unwrap();
        }
        let clustered = config.controller_addr.is_some();
        let mut broker = Broker::new(config, addr.to_string(), store);
        let mut parts = BTreeMap::new();
        let mut counts: BTreeMap<String, u32> = BTreeMap::new();
        for ((topic, p), files) in disks {
            let n = counts.entry(topic.clone()).or_default();
            *n = (*n).max(p + 1);
            parts.insert((topic, p), Part::open(files, log.clone(), 0));
        }
        if !clustered {
            for (topic, n) in counts {
                broker.add_topic(topic, n);
            }
        }
        Node {
            addr: addr.to_string(),
            broker,
            config: log,
            parts,
            offsets_log,
            acked: HashMap::new(),
            next_ticket: 1,
            version: 0,
            fetchers: Vec::new(),
        }
    }

    fn standalone() -> Node {
        let config = BrokerConfig::standalone(
            "data".to_string(),
            LogConfig {
                fsync: FsyncPolicy::Batch { max_bytes: 64 * 1024, max_ms: 5 },
                ..LogConfig::default()
            },
        );
        Node::start(config, "127.0.0.1:9092", BTreeMap::new(), Files::default())
    }

    fn stop(self) -> (BTreeMap<(String, u32), Files>, Files) {
        (
            self.parts.into_iter().map(|(k, p)| (k, p.files)).collect(),
            self.offsets_log.files,
        )
    }

    fn settle(&mut self, ready: Vec<Pending>) {
        for p in ready {
            self.acked.insert(p.ticket, Ok((p.base_offset, p.count)));
        }
    }

    fn fail(&mut self, failed: Vec<Pending>) {
        for p in failed {
            self.acked.insert(p.ticket, Err(ErrorCode::NotLeader));
        }
    }

    fn handle(&mut self, req: Request, now: u64) -> Answer {
        // Through the wire, both ways.
        let frame = encode_request(&req, 7);
        let (corr, req) = decode_request(&frame[4..]).unwrap();
        let answer = self.route(req, now);
        match answer {
            Answer::Now(resp) => {
                let frame = try_encode_response(&resp, corr).unwrap();
                let (corr, resp) = decode_response(&frame[4..]).unwrap();
                assert_eq!(corr, 7);
                Answer::Now(resp)
            }
            other => other,
        }
    }

    fn route(&mut self, req: Request, now: u64) -> Answer {
        let log_end = match place(&req) {
            Some(k) => self.parts.get(&k).map(|p| p.end()).unwrap_or(0),
            None => 0,
        };
        assert!(self.broker.has_room_for(&req));
        match self.broker.dispatch(req, log_end, now) {
            Route::Reply(r) => Answer::Now(r),
            Route::Silent => Answer::Silent,
            Route::AskController(r) => Answer::Controller(r),
            Route::CreateTopic { topic, partitions } => {
                for p in 0..partitions {
                    let part = Part::open(Files::default(), self.config.clone(), now);
                    self.parts.insert((topic.clone(), p), part);
                }
                self.broker.add_topic(topic, partitions);
                Answer::Now(Response::CreateTopic { error: ErrorCode::NoError })
            }
            Route::Append { topic, partition, acks, records, wait } => {
                let ticket = self.next_ticket;
                self.next_ticket += 1;
                let part = self.parts.get_mut(&(topic.clone(), partition)).unwrap();
                assert!(part.writer.has_room_for(&records));
                let asked = if wait == AckWait::Nobody { None } else { Some(ticket) };
                let step = part.writer.append(records, acks, asked, now as i64, now);
                part.files.apply(step.ops);
                let end = part.end();
                let mut mine = None;
                for r in step.replies {
                    if r.ticket == ticket {
                        mine = Some(r.result);
                    } else {
                        self.acked.insert(r.ticket, r.result);
                    }
                }
                let ready = self.broker.log_grew(&topic, partition, end);
                self.settle(ready);
                match wait {
                    AckWait::Nobody => Answer::Silent,
                    AckWait::Writer => match mine {
                        Some(result) => Answer::Now(produce_response(result)),
                        None => Answer::Parked(ticket),
                    },
                    AckWait::Replicas => match all_turn(mine.unwrap()) {
                        AllTurn::Answer(r) => Answer::Now(r),
                        AllTurn::Park { base_offset, count } => {
                            let ready = self.broker.park_produce(
                                &topic,
                                partition,
                                base_offset,
                                count,
                                ticket,
                                end,
                            );
                            self.settle(ready);
                            Answer::Parked(ticket)
                        }
                    },
                }
            }
            Route::Fetch { topic, partition, offset, max_bytes, max_wait_ms } => {
                let part = &self.parts[&(topic, partition)];
                match fetch_turn(part.read(offset, max_bytes as u64), max_wait_ms > 0) {
                    FetchTurn::Wait => Answer::Silent,
                    FetchTurn::Answer(r) => Answer::Now(r),
                }
            }
            Route::FetchCommitted { topic, partition, offset, max_bytes, max_wait_ms: _ } => {
                let hwm = self.broker.high_watermark(&topic, partition).unwrap();
                let part = &self.parts[&(topic, partition)];
                match committed_turn(offset, hwm, part.end(), false) {
                    CommittedTurn::Answer(r) => Answer::Now(r),
                    CommittedTurn::Wait => Answer::Silent,
                    CommittedTurn::Read => {
                        Answer::Now(committed_answer(part.read(offset, max_bytes as u64), hwm))
                    }
                }
            }
            Route::Commit { group, topic, partition, offset } => {
                let record = ProduceRecord {
                    key: Some(encode_key(&group, &topic, partition)),
                    value: encode_offset(offset),
                };
                let step =
                    self.offsets_log.writer.append(vec![record], Acks::Written, Some(0), 0, now);
                self.offsets_log.files.apply(step.ops);
                self.broker.commit_done(group, topic, partition, offset);
                Answer::Now(Response::CommitOffset { error: ErrorCode::NoError })
            }
            Route::FetchReplica {
                topic,
                partition,
                leader_epoch,
                offset,
                max_bytes,
                max_wait_ms: _,
                ready,
            } => {
                self.settle(ready);
                let hwm = self.broker.high_watermark(&topic, partition).unwrap();
                let part = &self.parts[&(topic, partition)];
                match replica_turn(part.read(offset, max_bytes as u64), false, leader_epoch, hwm) {
                    FetchTurn::Answer(r) => Answer::Now(r),
                    FetchTurn::Wait => Answer::Silent,
                }
            }
            Route::EpochEnd { topic, partition, epoch } => {
                let end = self.parts[&(topic, partition)].writer.epoch_end_for(epoch);
                Answer::Now(Response::EpochCheck { error: ErrorCode::NoError, end_offset: end })
            }
        }
    }

    fn ask(&mut self, req: Request, now: u64) -> Response {
        match self.handle(req, now) {
            Answer::Now(r) => r,
            _ => panic!("no answer at once"),
        }
    }

    fn produce(&mut self, topic: &str, p: u32, acks: Acks, values: Vec<Vec<u8>>, now: u64) -> Answer {
        let records = values.into_iter().map(|value| ProduceRecord { key: None, value }).collect();
        self.handle(Connection::produce(topic, p, acks, 0, records), now)
    }

    fn fetch(&mut self, topic: &str, p: u32, offset: u64, now: u64) -> (u64, u64, Vec<FetchedRecord>) {
        let resp = self.ask(Connection::fetch(topic, p, offset, 1 << 20, 0), now);
        Connection::fetched(resp).unwrap()
    }
}

fn base_of(a: Answer) -> u64 {
    match a {
        Answer::Now(r) => Connection::produced(r).unwrap(),
        _ => panic!("produce was not answered at once"),
    }
}

fn refusal(a: Answer) -> ErrorCode {
    match a {
        Answer::Now(r) => match Connection::produced(r) {
            Err(ClientError::Broker(e)) => e,
            _ => panic!("produce was not refused"),
        },
        _ => panic!("produce was not answered at once"),
    }
}

#[test]
fn produce_fetch_roundtrip_and_metadata() {
    let mut node = Node::standalone();
    let resp = node.ask(Connection::create_topic("events", 2, 0), 0);
    assert!(Connection::topic_created(resp).is_ok());
    let resp = node.ask(Connection::create_topic("events", 2, 0), 0);
    assert!(matches!(
        Connection::topic_created(resp),
        Err(ClientError::Broker(ErrorCode::TopicExists))
    ));
    let resp = node.ask(Request::Metadata, 0);
    let cluster = Connection::metadata(resp).unwrap();
    assert_eq!(cluster.topics.len(), 1);
    assert_eq!(cluster.topics[0].name, "events");
    assert_eq!(cluster.topics[0].partitions.len(), 2);

    let make_record = |i: usize| ProduceRecord {
        key: match i % 3 {
            0 => None,
            _ => Some(format!("key-{i}").into_bytes()),
        },
        value: match i % 50 {
            49 => vec![0xC3; 100 * 1024],
            _ => format!("value-{i}").into_bytes(),
        },
    };

    let total = 5000usize;
    for batch_start in (0..total).step_by(100) {
        let records: Vec<_> = (batch_start..batch_start + 100).map(make_record).collect();
        let req = Connection::produce("events", 0, Acks::Written, 0, records);
        assert_eq!(base_of(node.handle(req, 0)), batch_start as u64);
    }
    let isolated = vec![ProduceRecord {
        key: Some(b"other-partition".to_vec()),
        value: b"isolated".to_vec(),
    }];
    node.handle(Connection::produce("events", 1, Acks::Written, 0, isolated), 0);

    let mut position = 0u64;
    let mut fetched = Vec::new();
    loop {
        let (log_start, next_offset, records) = node.fetch("events", 0, position, 0);
        assert_eq!(log_start, 0);
        if records.is_empty() {
            assert_eq!(next_offset, total as u64);
            break;
        }
        for r in records {
            assert_eq!(r.offset, position, "offsets must be contiguous");
            position += 1;
            fetched.push(r);
        }
    }
    assert_eq!(fetched.len(), total);
    for (i, r) in fetched.iter().enumerate() {
        let expected = make_record(i);
        assert_eq!(r.key, expected.key, "key mismatch at {i}");
        assert_eq!(r.value, expected.value, "value mismatch at {i}");
    }

    let (_, _, other) = node.fetch("events", 1, 0, 0);
    assert_eq!(other.len(), 1);
    assert_eq!(other[0].value, b"isolated");
}

#[test]
fn errors_for_unknown_topic_and_bad_offset() {
    let mut node = Node::standalone();
    assert_eq!(
        refusal(node.produce("nope", 0, Acks::Written, vec![], 0)),
        ErrorCode::UnknownTopicOrPartition
    );
    node.ask(Connection::create_topic("t", 1, 0), 0);
    let resp = node.ask(Connection::fetch("t", 0, 99, 1 << 20, 0), 0);
    assert!(matches!(
        Connection::fetched(resp),
        Err(ClientError::Broker(ErrorCode::OffsetOutOfRange))
    ));
}

#[test]
fn long_poll_fetch_completes_on_produce() {
    let mut node = Node::standalone();
    node.ask(Connection::create_topic("t", 1, 0), 0);
    // The fetch waits while there is nothing to read.
    assert!(matches!(
        node.handle(Connection::fetch("t", 0, 0, 1 << 20, 5000), 0),
        Answer::Silent
    ));
    node.produce("t", 0, Acks::Written, vec![b"wakeup".to_vec()], 100);
    let resp = node.ask(Connection::fetch("t", 0, 0, 1 << 20, 5000), 100);
    let (_, next_offset, records) = Connection::fetched(resp).unwrap();
    assert_eq!(records.len(), 1);
    assert_eq!(records[0].value, b"wakeup");
    assert_eq!(next_offset, 1);
}

#[test]
fn pipelined_produces_stay_ordered() {
    let mut node = Node::standalone();
    node.ask(Connection::create_topic("t", 1, 0), 0);
    let mut conn = Connection::new();
    let mut frames = Vec::new();
    for i in 0..50u64 {
        let req = Request::Produce {
            topic: "t".into(),
            partition: 0,
            acks: Acks::Written,
            leader_epoch: 0,
            records: vec![ProduceRecord { key: None, value: i.to_le_bytes().to_vec() }],
        };
        frames.push(conn.call_start(&req, i).unwrap_or_else(|e| panic!("{}", e.message())));
    }
    let mut answers = HashMap::new();
    for f in frames {
        let (corr, req) = decode_request(&f[4..]).unwrap();
        let resp = node.ask(req, 0);
        answers.insert(conn.deliver(corr).unwrap(), resp);
    }
    for i in 0..50u64 {
        match answers.remove(&i).unwrap() {
            Response::Produce { error: ErrorCode::NoError, base_offset, count } => {
                assert_eq!(base_offset, i, "pipelined produce order broken");
                assert_eq!(count, 1);
            }
            other => panic!("unexpected response {other:?}"),
        }
    }
    assert_eq!(conn.deliver(1), None);
}

#[test]
fn consumer_resumes_from_committed_offset_across_restart() {
    let mut node = Node::standalone();
    node.ask(Connection::create_topic("t", 1, 0), 0);
    for base in (0..100u64).step_by(20) {
        let values = (base..base + 20).map(|i| format!("v{i}").into_bytes()).collect();
        node.produce("t", 0, Acks::Written, values, 0);
    }
    let resp = node.ask(Connection::commit_offset("group-a", "t", 0, 60, "", 0), 0);
    Connection::committed(resp).unwrap();
    let resp = node.ask(Connection::fetch_offset("group-a", "t", 0), 0);
    assert_eq!(Connection::offset_fetched(resp).unwrap(), Some(60));
    let resp = node.ask(Connection::fetch_offset("group-b", "t", 0), 0);
    assert_eq!(Connection::offset_fetched(resp).unwrap(), None);
    let (disks, offsets) = node.stop();

    let config = BrokerConfig::standalone("data".to_string(), LogConfig::default());
    let mut node = Node::start(config, "127.0.0.1:9092", disks, offsets);
    let resp = node.ask(Connection::fetch_offset("group-a", "t", 0), 0);
    let committed = Connection::offset_fetched(resp).unwrap();
    let mut consumer =
        Consumer::resume("t".to_string(), 0, "group-a".to_string(), committed);
    assert_eq!(consumer.position(), 60, "must resume from the committed offset");

    let mut seen = Vec::new();
    while seen.len() < 40 {
        let resp = node.ask(consumer.poll(), 0);
        let (_, _, records) = Connection::fetched(resp).unwrap();
        consumer.polled(&records);
        assert!(!records.is_empty(), "expected the remaining 40 records");
        seen.extend(records);
    }
    assert_eq!(seen.first().unwrap().offset, 60);
    assert_eq!(seen.last().unwrap().offset, 99);
    let resp = node.ask(consumer.commit().unwrap(), 0);
    Connection::committed(resp).unwrap();
}

#[test]
fn durable_acked_records_survive_kill_dash_nine() {
    let config = BrokerConfig::standalone(
        "data".to_string(),
        LogConfig {
            fsync: FsyncPolicy::Batch { max_bytes: 4096, max_ms: 2 },
            ..LogConfig::default()
        },
    );
    let mut node = Node::start(config, "127.0.0.1:9092", BTreeMap::new(), Files::default());
    node.ask(Connection::create_topic("crash", 1, 0), 0);
    let mut acked = 0u64;
    for base in (0..50u64).step_by(10) {
        let values = (base..base + 10).map(|i| format!("durable-{i}").into_bytes()).collect();
        let now = base;
        match node.produce("crash", 0, Acks::Durable, values, now) {
            Answer::Now(r) => assert_eq!(Connection::produced(r).unwrap(), base),
            Answer::Parked(ticket) => {
                // Held until the covering flush, which is due two milliseconds on.
                let part = node.parts.get_mut(&("crash".to_string(), 0)).unwrap();
                assert!(part.writer.wait_ms(now) <= 2);
                let step = part.writer.tick(now + 2).unwrap();
                assert!(step.replies.iter().any(|r| r.ticket == ticket && r.result == Ok((base, 10))));
                part.files.apply(step.ops);
            }
            _ => panic!("durable produce got no answer"),
        }
        acked += 10;
    }
    // The process dies, and only what the files hold is left.
    let (disks, offsets) = node.stop();
    let config = BrokerConfig::standalone("data".to_string(), LogConfig::default());
    let mut node = Node::start(config, "127.0.0.1:9092", disks, offsets);
    let (_, next, records) = node.fetch("crash", 0, 0, 0);
    assert_eq!(next, acked);
    assert_eq!(records.len() as u64, acked, "every durable-acked record must survive kill -9");
    for (i, r) in records.iter().enumerate() {
        assert_eq!(r.value, format!("durable-{i}").into_bytes());
    }
}

fn join(node: &mut Node, group: &str, member: &str, timeout: u32, now: u64) -> (String, u64, Vec<(String, u32)>) {
    match node.ask(
        Request::JoinGroup {
            group: group.into(),
            member_id: member.into(),
            session_timeout_ms: timeout,
            topics: vec!["t".into()],
        },
        now,
    ) {
        Response::JoinGroup { error: ErrorCode::NoError, member_id, generation, assignment } => {
            (member_id, generation, assignment)
        }
        other => panic!("join failed: {other:?}"),
    }
}

fn heartbeat(node: &mut Node, group: &str, member: &str, generation: u64, now: u64) -> ErrorCode {
    match node.ask(
        Request::Heartbeat { group: group.into(), member_id: member.into(), generation },
        now,
    ) {
        Response::Heartbeat { error } => error,
        other => panic!("unexpected response {other:?}"),
    }
}

fn partitions_of(assignment: &[(String, u32)]) -> HashSet<u32> {
    assignment.iter().map(|(_, p)| *p).collect()
}

#[test]
fn a_broker_knows_how_many_partitions_a_topic_has() {
    let mut node = Node::standalone();
    node.ask(Connection::create_topic("t", 4, 0), 0);
    assert_eq!(node.broker.topic_partitions("t"), Some(4));
    assert_eq!(node.broker.topic_partitions("u"), None);
}

#[test]
fn members_split_partitions_and_rebalance_on_membership_change() {
    let mut node = Node::standalone();
    node.ask(Connection::create_topic("t", 4, 0), 0);

    let (m1, gen1, a1) = join(&mut node, "g", "", 30_000, 0);
    assert_eq!(partitions_of(&a1), HashSet::from([0, 1, 2, 3]));

    let (m2, gen2, a2) = join(&mut node, "g", "", 30_000, 0);
    assert!(gen2 > gen1);
    assert_eq!(heartbeat(&mut node, "g", &m1, gen1, 0), ErrorCode::StaleGeneration);

    let (_, gen1b, a1b) = join(&mut node, "g", &m1, 30_000, 0);
    assert_eq!(gen1b, gen2);
    assert_eq!(a1b.len(), 2);
    assert_eq!(a2.len(), 2);
    let union: HashSet<u32> = partitions_of(&a1b).union(&partitions_of(&a2)).copied().collect();
    assert_eq!(union, HashSet::from([0, 1, 2, 3]));
    assert!(partitions_of(&a1b).is_disjoint(&partitions_of(&a2)));

    let (m3, gen3, a3) = join(&mut node, "g", "", 30_000, 0);
    assert!(gen3 > gen2);
    let (_, _, a1c) = join(&mut node, "g", &m1, 30_000, 0);
    let (_, _, a2c) = join(&mut node, "g", &m2, 30_000, 0);
    let mut sizes = vec![a1c.len(), a2c.len(), a3.len()];
    sizes.sort_unstable();
    assert_eq!(sizes, vec![1, 1, 2]);

    match node.ask(Request::LeaveGroup { group: "g".into(), member_id: m3.clone() }, 0) {
        Response::LeaveGroup { error: ErrorCode::NoError } => {}
        other => panic!("leave failed: {other:?}"),
    }
    assert_eq!(heartbeat(&mut node, "g", &m3, gen3, 0), ErrorCode::UnknownMember);
    let (_, gen4, a1d) = join(&mut node, "g", &m1, 30_000, 0);
    assert!(gen4 > gen3);
    assert_eq!(a1d.len(), 2);
}

#[test]
fn stale_generation_commit_is_fenced() {
    let mut node = Node::standalone();
    node.ask(Connection::create_topic("t", 2, 0), 0);
    let (m1, gen1, _) = join(&mut node, "g", "", 30_000, 0);
    let (_m2, _gen2, _) = join(&mut node, "g", "", 30_000, 0);

    // m1's generation is now stale; its commit must be rejected.
    let resp = node.ask(Connection::commit_offset("g", "t", 0, 42, &m1, gen1), 0);
    assert!(matches!(
        Connection::committed(resp),
        Err(ClientError::Broker(ErrorCode::StaleGeneration))
    ));
    let resp = node.ask(Connection::fetch_offset("g", "t", 0), 0);
    assert_eq!(Connection::offset_fetched(resp).unwrap(), None);

    // After rejoining at the current generation the commit goes through.
    let (_, current, _) = join(&mut node, "g", &m1, 30_000, 0);
    let resp = node.ask(Connection::commit_offset("g", "t", 0, 42, &m1, current), 0);
    Connection::committed(resp).unwrap();
    let resp = node.ask(Connection::fetch_offset("g", "t", 0), 0);
    assert_eq!(Connection::offset_fetched(resp).unwrap(), Some(42));
}

#[test]
fn silent_member_is_evicted_after_session_timeout() {
    let mut node = Node::standalone();
    node.ask(Connection::create_topic("t", 4, 0), 0);
    let (m1, _, _) = join(&mut node, "g", "", 30_000, 0);
    let (_m2, gen2, _) = join(&mut node, "g", "", 500, 0);
    let (_, _, a1) = join(&mut node, "g", &m1, 30_000, 0);
    assert_eq!(a1.len(), 2);

    let mut now = 0;
    loop {
        now += 100;
        assert!(node.broker.members_are_countable(now));
        node.broker.expire_members(now);
        match heartbeat(&mut node, "g", &m1, gen2, now) {
            ErrorCode::NoError => assert!(now < 3000, "m2 was not evicted within 3 s"),
            ErrorCode::StaleGeneration => break,
            other => panic!("unexpected heartbeat error {other:?}"),
        }
    }
    assert!(now > 500);
    let (_, _, a1b) = join(&mut node, "g", &m1, 30_000, now);
    assert_eq!(partitions_of(&a1b), HashSet::from([0, 1, 2, 3]));
}

/// A member of a group, with what it read.
struct Member {
    name: &'static str,
    consumer: GroupConsumer,
}

impl Member {
    fn join(node: &mut Node, name: &'static str, now: u64) -> Member {
        let consumer = GroupConsumer::new("g".into(), vec!["ev".into()], 1000, now);
        let mut member = Member { name, consumer };
        member.consumer.set_max_wait_ms(50);
        member.rejoin(node, now);
        member
    }

    fn rejoin(&mut self, node: &mut Node, now: u64) {
        let got = joined(node.ask(self.consumer.join(), now)).unwrap();
        let mut committed = Vec::new();
        for (topic, partition) in &got.assignment {
            let req = self.consumer.committed_request(topic, *partition);
            committed.push(Connection::offset_fetched(node.ask(req, now)).unwrap());
        }
        self.consumer.rejoin(got, &committed, now);
    }

    fn poll(&mut self, node: &mut Node, history: &mut History, now: u64) -> usize {
        if let Some(req) = self.consumer.maybe_heartbeat(now) {
            match after_member_heartbeat(node.ask(req, now)) {
                HeartbeatTurn::Proceed => self.consumer.heartbeat_done(now),
                HeartbeatTurn::Rejoin => self.rejoin(node, now),
                HeartbeatTurn::Fail(e) => panic!("heartbeat failed: {e:?}"),
            }
        }
        for _ in 0..self.consumer.assignment().len() {
            let (at, req) = self.consumer.poll().unwrap();
            let records = match node.handle(req, now) {
                Answer::Now(resp) => Connection::fetched(resp).unwrap().2,
                _ => Vec::new(),
            };
            self.consumer.polled(at, &records);
            if !records.is_empty() {
                let (topic, partition) = self.consumer.assignment()[at].clone();
                for r in &records {
                    let id = u64::from_le_bytes(r.value[..8].try_into().unwrap());
                    let generation = self.consumer.generation();
                    history.record_consumed(
                        self.name, generation, &topic, partition, r.offset, id,
                    );
                }
                return records.len();
            }
        }
        0
    }

    fn commit(&mut self, node: &mut Node, now: u64) {
        for at in 0..self.consumer.assignment().len() {
            let resp = node.ask(self.consumer.commit(at), now);
            match after_commit(Connection::committed(resp)) {
                CommitTurn::Proceed => {}
                CommitTurn::Rejoin(_) => {
                    self.rejoin(node, now);
                    return;
                }
                CommitTurn::Fail(e) => panic!("commit failed: {e:?}"),
            }
        }
    }
}

#[test]
fn rebalance_preserves_at_least_once_delivery() {
    let mut node = Node::standalone();
    node.ask(Connection::create_topic("ev", 4, 0), 0);
    let mut history = History::new();
    const TOTAL: u64 = 3000;

    let mut producer = TopicProducer::new("ev".into(), Acks::Written, 25, 4);
    let mut pending: Vec<Vec<u64>> = vec![Vec::new(); 4];
    let mut next_id = 0u64;
    let mut a = Member::join(&mut node, "A", 0);
    let mut b = Some(Member::join(&mut node, "B", 0));
    let mut b_count = 0;
    let mut polls = 0;
    let mut now = 0;
    let mut crashed_at = 0;
    let mut full_ownership_at = None;
    loop {
        now += 15;
        assert!(now < 60_000, "acked records not fully consumed within a minute");
        node.broker.expire_members(now);
        for _ in 0..25 {
            if next_id == TOTAL {
                break;
            }
            let key = format!("k{}", next_id % 61).into_bytes();
            let expect = partition_for_key(&key, 4);
            pending[expect as usize].push(next_id);
            if let Some((p, req)) = producer.send(Some(key), next_id.to_le_bytes().to_vec()) {
                assert_eq!(p, expect);
                Connection::produced(node.ask(req, now)).unwrap();
                for acked in pending[p as usize].drain(..) {
                    history.record_produced(acked, "ev");
                }
            }
            next_id += 1;
        }
        if next_id == TOTAL {
            for p in 0..producer.partitions() {
                if let Some((p, req)) = producer.flush(p) {
                    Connection::produced(node.ask(req, now)).unwrap();
                    for acked in pending[p as usize].drain(..) {
                        history.record_produced(acked, "ev");
                    }
                }
            }
        }

        // B consumes some 300 records, then crashes without leaving.
        if let Some(member) = &mut b {
            b_count += member.poll(&mut node, &mut history, now);
            if b_count >= 150 {
                member.commit(&mut node, now);
            }
            if b_count >= 300 {
                b = None;
                crashed_at = now;
            }
        }

        // A runs until every acked id is covered.
        a.poll(&mut node, &mut history, now);
        polls += 1;
        if polls % 10 == 0 {
            a.commit(&mut node, now);
        }
        if b.is_none() && full_ownership_at.is_none() && a.consumer.assignment().len() == 4 {
            full_ownership_at = Some(now);
        }
        if next_id == TOTAL
            && full_ownership_at.is_some()
            && history.produced_ids().is_subset(&history.consumed_ids())
        {
            break;
        }
    }

    // B is evicted after its session of a second; A learns of it by its next
    // heartbeat, at a third of its own.
    let takeover = full_ownership_at.unwrap() - crashed_at;
    assert!(takeover > 600 && takeover <= 1400, "A took over after {takeover} ms");
    let report = history.verify();
    assert_eq!(report.produced_acked as u64, TOTAL);
    assert!(report.is_ok(), "{}", report.text());
}

/// A controller and brokers that share a clock.
struct Cluster {
    controller: Controller,
    nodes: Vec<Option<Node>>,
    cut: HashSet<usize>,
    disks: Vec<(BTreeMap<(String, u32), Files>, Files)>,
    min_isr: u32,
    lag_ms: u64,
    now: u64,
}

fn cluster_log() -> LogConfig {
    LogConfig {
        fsync: FsyncPolicy::Batch { max_bytes: 256 * 1024, max_ms: 5 },
        ..LogConfig::default()
    }
}

impl Cluster {
    fn start(n: usize, min_isr: u32, session_timeout_ms: u64, lag_ms: u64) -> Cluster {
        let config =
            ControllerConfig { state_file: "controller.state".to_string(), session_timeout_ms };
        let mut c = Cluster {
            controller: Controller::new(config, None).unwrap(),
            nodes: Vec::new(),
            cut: HashSet::new(),
            disks: Vec::new(),
            min_isr,
            lag_ms,
            now: 0,
        };
        for id in 0..n {
            c.nodes.push(None);
            c.disks.push((BTreeMap::new(), Files::default()));
            c.boot(id, min_isr, lag_ms);
        }
        c.run(1000);
        c
    }

    fn boot(&mut self, id: usize, min_isr: u32, lag_ms: u64) {
        let mut config = BrokerConfig::clustered(
            format!("data-{id}"),
            cluster_log(),
            id as u32,
            "controller:9090".to_string(),
        );
        config.min_insync_replicas = min_isr;
        config.replica_lag_ms = lag_ms;
        let (disks, offsets) = self.disks[id].clone();
        self.nodes[id] = Some(Node::start(config, &format!("broker-{id}:9000"), disks, offsets));
    }

    fn kill(&mut self, id: usize) {
        self.disks[id] = self.nodes[id].take().unwrap().stop();
    }

    fn controller_call(&mut self, req: &Request) -> Response {
        let frame = encode_request(req, 3);
        match self.controller.serve(&frame[4..], self.now) {
            Served::Reply { frame, .. } => {
                let (corr, resp) = decode_response(&frame[4..]).unwrap();
                assert_eq!(corr, 3);
                resp
            }
            _ => panic!("the controller did not answer"),
        }
    }

    fn meta(&mut self) -> ClusterMeta {
        let resp = self.controller_call(&Request::ControllerMetadata);
        Connection::controller_metadata(resp).unwrap()
    }

    fn node_at(&self, addr: &str) -> Option<usize> {
        (0..self.nodes.len()).find(|i| matches!(&self.nodes[*i], Some(n) if n.addr == addr))
    }

    fn tick_control(&mut self, id: usize) {
        if self.cut.contains(&id) {
            return;
        }
        let mut node = self.nodes[id].take().unwrap();
        let reply = Ok(self.controller_call(&node.broker.heartbeat(node.version)));
        let refresh = match after_heartbeat(reply, node.version, false) {
            HeartbeatStep::Register => {
                self.controller_call(&node.broker.registration());
                true
            }
            HeartbeatStep::Refresh => true,
            _ => false,
        };
        if refresh {
            let reply = Ok(self.controller_call(&Request::ControllerMetadata));
            if let Some(meta) = metadata_in(reply) {
                self.apply(&mut node, meta);
            }
        }
        for i in 0..node.broker.replica_count() {
            if let Some(req) = node.broker.isr_proposal(i, self.now) {
                let key = place(&req).unwrap();
                let (epoch, isr) = match &req {
                    Request::AlterIsr { leader_epoch, isr, .. } => (*leader_epoch, isr.clone()),
                    _ => unreachable!(),
                };
                let reply = Ok(self.controller_call(&req));
                let end = node.parts[&key].end();
                let (ready, _) = node.broker.isr_answered(i, epoch, isr, reply, end);
                node.settle(ready);
            }
        }
        self.nodes[id] = Some(node);
    }

    fn apply(&mut self, node: &mut Node, meta: ClusterMeta) {
        let id = match node.broker.registration() {
            Request::RegisterBroker { broker_id, .. } => broker_id,
            _ => unreachable!(),
        };
        for t in &meta.topics {
            for p in &t.partitions {
                if !is_replica(p, id) {
                    continue;
                }
                let key = (t.name.clone(), p.partition);
                if !node.broker.has_replica(&t.name, p.partition) {
                    if !node.parts.contains_key(&key) {
                        let part = Part::open(Files::default(), node.config.clone(), self.now);
                        node.parts.insert(key.clone(), part);
                    }
                    node.broker.add_replica(t.name.clone(), p.partition, self.now);
                }
                assert!(node.broker.has_generations(&t.name, p.partition));
                let end = node.parts[&key].end();
                let applied =
                    node.broker.apply_partition(&meta, &t.name, p, end, self.now).unwrap();
                node.fail(applied.failed);
                node.settle(applied.ready);
                match applied.start {
                    Start::Epoch(epoch) => {
                        let part = node.parts.get_mut(&key).unwrap();
                        let bytes = part.writer.record_epoch(epoch).unwrap();
                        part.files.epochs.extend(bytes);
                    }
                    Start::Fetcher { generation, epoch, leader_addr } => {
                        node.fetchers.push(Fetcher {
                            topic: t.name.clone(),
                            partition: p.partition,
                            generation,
                            epoch,
                            leader: leader_addr,
                            reconciled: false,
                        });
                    }
                    Start::Nothing => {}
                }
            }
        }
        node.version = meta.version;
        node.broker.set_meta(meta);
    }

    fn call(&mut self, addr: &str, req: Request) -> Result<Response, ClientError> {
        let now = self.now;
        match self.node_at(addr) {
            Some(i) => match self.nodes[i].as_mut().unwrap().handle(req, now) {
                Answer::Now(r) => Ok(r),
                _ => panic!("a follower got no answer"),
            },
            None => Err(ClientError::Closed),
        }
    }

    fn tick_fetchers(&mut self, id: usize) {
        let mut node = self.nodes[id].take().unwrap();
        let mut fetchers = std::mem::take(&mut node.fetchers);
        let mut kept = Vec::new();
        for mut f in fetchers.drain(..) {
            let key = (f.topic.clone(), f.partition);
            if !node.broker.fetcher_is_current(&f.topic, f.partition, f.generation) {
                continue;
            }
            let step = if !f.reconciled {
                let (epoch, _) = node.parts[&key].writer.epoch_status();
                let reply = self.call(&f.leader, epoch_check_request(&f.topic, f.partition, epoch));
                reconcile(reply, true, node.parts[&key].end())
            } else {
                let end = node.parts[&key].end();
                let req = replica_fetch_request(&f.topic, f.partition, id as u32, f.epoch, end);
                let (epoch, _) = node.parts[&key].writer.epoch_status();
                pull(self.call(&f.leader, req), true, epoch)
            };
            let part = node.parts.get_mut(&key).unwrap();
            let over = match step {
                FetchStep::Stop | FetchStep::Refresh => true,
                FetchStep::Fetch => {
                    f.reconciled = true;
                    false
                }
                FetchStep::Truncate { to } => {
                    let log = match part.writer.log().truncation_span(to) {
                        Some(s) => part.files.segments[&s.base].0[..s.len as usize].to_vec(),
                        None => Vec::new(),
                    };
                    assert!(part.writer.log().can_truncate());
                    let cut = part.writer.truncate_to(to, &log, self.now).unwrap();
                    part.files.apply(cut.ops);
                    if let Some(bytes) = cut.checkpoint {
                        part.files.epochs = bytes;
                    }
                    f.reconciled = true;
                    false
                }
                FetchStep::Append { epoch, records } => {
                    if let Some(e) = epoch {
                        let bytes = part.writer.record_epoch(e).unwrap();
                        part.files.epochs.extend(bytes);
                    }
                    assert!(part.writer.has_room_for_replicated(&records));
                    let (ops, result) = part.writer.append_replicated(records, self.now);
                    part.files.apply(ops);
                    result.is_err()
                }
            };
            if over {
                node.broker.fetcher_ended(&f.topic, f.partition, f.generation);
                node.version = 0;
            } else {
                kept.push(f);
            }
        }
        node.fetchers.extend(kept);
        self.nodes[id] = Some(node);
    }

    fn run(&mut self, ms: u64) {
        let until = self.now + ms;
        while self.now < until {
            self.now += 50;
            self.controller.sweep(self.now);
            for id in 0..self.nodes.len() {
                if self.nodes[id].is_some() {
                    self.tick_control(id);
                }
            }
            for id in 0..self.nodes.len() {
                if self.nodes[id].is_some() {
                    self.tick_fetchers(id);
                }
            }
        }
    }

    fn create(&mut self, topic: &str, partitions: u32, rf: u32) {
        let resp = self.controller_call(&Connection::create_topic(topic, partitions, rf));
        Connection::topic_created(resp).unwrap();
        self.run(1000);
        for p in 0..partitions {
            let meta = self.meta();
            assert_eq!(isr_of(&meta, topic, p).len(), rf as usize, "full ISR");
        }
    }

    fn leader(&mut self, topic: &str) -> i32 {
        let meta = self.meta();
        leader_of(&meta, topic, 0)
    }

    fn isr(&mut self, topic: &str) -> Vec<u32> {
        let meta = self.meta();
        isr_of(&meta, topic, 0)
    }

    /// Produces at a broker and waits for the answer.
    fn produce(&mut self, id: usize, topic: &str, acks: Acks, values: Vec<Vec<u8>>) -> Result<u64, ClientError> {
        let now = self.now;
        let answer = self.nodes[id].as_mut().unwrap().produce(topic, 0, acks, values, now);
        match answer {
            Answer::Now(r) => Connection::produced(r),
            Answer::Parked(ticket) => {
                for _ in 0..300 {
                    self.run(50);
                    let node = match self.nodes[id].as_mut() {
                        Some(n) => n,
                        None => return Err(ClientError::Closed),
                    };
                    if let Some(result) = node.acked.remove(&ticket) {
                        return Connection::produced(parked_response(Some(result)));
                    }
                }
                Connection::produced(parked_response(None))
            }
            _ => Err(ClientError::Closed),
        }
    }

    fn fetch(&mut self, id: usize, topic: &str, offset: u64) -> (u64, Vec<FetchedRecord>) {
        let now = self.now;
        let (_, hwm, rs) = self.nodes[id].as_mut().unwrap().fetch(topic, 0, offset, now);
        (hwm, rs)
    }

    fn log(&self, id: usize, topic: &str) -> Vec<Record> {
        self.nodes[id].as_ref().unwrap().parts[&(topic.to_string(), 0)].all()
    }
}

fn numbered(lead: &str, range: std::ops::Range<u64>) -> Vec<Vec<u8>> {
    range.map(|i| format!("{lead}-{i}").into_bytes()).collect()
}

#[test]
fn replicated_logs_converge_and_acks_all_works() {
    let mut c = Cluster::start(3, 2, 1000, 1500);
    c.create("r", 1, 3);
    let leader = c.leader("r");
    assert!(leader >= 0, "leader elected");
    let leader = leader as usize;

    let total = 500u64;
    for base in (0..total).step_by(50) {
        let acked = c.produce(leader, "r", Acks::All, numbered("value", base..base + 50)).unwrap();
        assert_eq!(acked, base);
    }
    let mut position = 0u64;
    while position < total {
        let (hwm, records) = c.fetch(leader, "r", position);
        assert!(hwm <= total);
        for r in records {
            assert_eq!(r.offset, position);
            position += 1;
        }
    }
    c.run(500);
    let logs: Vec<_> = (0..3).map(|i| c.log(i, "r")).collect();
    assert_eq!(logs[0].len(), total as usize);
    assert_eq!(logs[0], logs[1], "replica 1 diverges from leader");
    assert_eq!(logs[0], logs[2], "replica 2 diverges from leader");
}

#[test]
fn acks_all_refused_when_isr_below_min() {
    let mut c = Cluster::start(3, 2, 700, 700);
    c.create("m", 1, 3);
    let leader = c.leader("m") as usize;
    c.produce(leader, "m", Acks::All, vec![b"x".to_vec()]).unwrap();
    for id in 0..3 {
        if id != leader {
            c.kill(id);
        }
    }
    c.run(3000);
    assert_eq!(c.isr("m").len(), 1, "ISR shrink");
    let err = c.produce(leader, "m", Acks::All, vec![b"x".to_vec()]).unwrap_err();
    assert!(matches!(err, ClientError::Broker(ErrorCode::NotEnoughReplicas)), "got {err:?}");
    // Weaker ack levels still work: availability is the client's choice.
    c.produce(leader, "m", Acks::Written, vec![b"x".to_vec()]).unwrap();
}

/// Kill the leader mid-stream at acks=all; a new leader is elected; zero acked
/// records are lost.
#[test]
fn failover_loses_no_acked_records() {
    let mut c = Cluster::start(3, 2, 700, 1000);
    c.create("f", 1, 3);
    let original = c.leader("f");
    assert!(original >= 0);
    let mut history = History::new();
    let mut leader = original as usize;
    let mut acked = 0;
    for base in (0..1200u64).step_by(20) {
        if base == 400 {
            c.kill(original as usize);
        }
        let values: Vec<Vec<u8>> = (base..base + 20).map(|i| i.to_le_bytes().to_vec()).collect();
        for _ in 0..5 {
            if c.nodes[leader].is_some() {
                if c.produce(leader, "f", Acks::All, values.clone()).is_ok() {
                    for id in base..base + 20 {
                        history.record_produced(id, "f");
                    }
                    acked += 20;
                    break;
                }
            }
            c.run(500);
            let l = c.leader("f");
            if l >= 0 {
                leader = l as usize;
            }
        }
    }
    assert!(acked >= 1000, "workload should mostly succeed through the failover ({acked} acked)");
    let new_leader = c.leader("f");
    assert!(new_leader >= 0 && new_leader != original, "new leader elected");

    let mut position = 0u64;
    loop {
        let (hwm, records) = c.fetch(new_leader as usize, "f", position);
        for r in &records {
            let mut id = [0u8; 8];
            id.copy_from_slice(&r.value[..8]);
            history.record_consumed("reader", 0, "f", 0, r.offset, u64::from_le_bytes(id));
            position = r.offset + 1;
        }
        if position >= hwm {
            break;
        }
    }
    let report = history.verify_from_start();
    assert!(report.is_ok(), "ACKED RECORDS LOST: {}", report.text());
}

/// Stale-leader rejoin: acks=written records that only the dead leader had
/// are truncated away when it returns as a follower; acks=all history and the
/// new leader's records win. Divergence handled by epochs, not hope.
#[test]
fn stale_leader_rejoin_truncates_divergent_suffix() {
    let mut c = Cluster::start(2, 2, 700, 3000);
    c.create("s", 1, 2);
    let a = c.leader("s") as usize;
    let b = 1 - a;
    c.produce(a, "s", Acks::All, numbered("committed", 0..100)).unwrap();

    c.kill(b);
    for i in 0..30u64 {
        c.produce(a, "s", Acks::Written, numbered("leader-only", i..i + 1)).unwrap();
    }
    c.kill(a);
    c.run(1000);
    c.boot(b, 1, 3000);
    c.run(1000);
    assert_eq!(c.leader("s"), b as i32, "B elected");
    c.produce(b, "s", Acks::All, numbered("new-epoch", 0..40)).unwrap();

    c.boot(a, 1, 2000);
    c.run(3000);
    assert_eq!(c.fetch(b, "s", 0).0, 140);
    assert_eq!(c.isr("s").len(), 2, "A never converged/rejoined ISR");
    let log_a = c.log(a, "s");
    let log_b = c.log(b, "s");
    assert_eq!(log_a.len(), 140, "A must have exactly 100 + 40 records");
    assert_eq!(log_a, log_b, "logs must converge byte-identically");
    assert!(
        log_a.iter().all(|r| !r.value.starts_with(b"leader-only-")),
        "divergent acks=written records must be truncated away"
    );
}

/// A leader that is cut off from the controller is deposed, keeps serving
/// acks=1 as a zombie, and heals into a follower of the new epoch.
#[test]
fn cut_controller_link_deposes_leader_and_heals_divergence() {
    let mut c = Cluster::start(3, 2, 700, 1500);
    assert_eq!(c.min_isr, 2);
    assert_eq!(c.lag_ms, 1500);
    c.create("z", 1, 3);
    let zombie = c.leader("z") as usize;
    c.produce(zombie, "z", Acks::All, numbered("committed", 0..100)).unwrap();
    c.run(200);

    c.cut.insert(zombie);
    c.run(2000);
    let new_leader = c.leader("z");
    assert!(new_leader >= 0 && new_leader as usize != zombie, "re-election away from the zombie");
    let new_leader = new_leader as usize;
    for i in 0..10u64 {
        c.produce(zombie, "z", Acks::Written, numbered("zombie", i..i + 1))
            .expect("zombie must still accept acks=1 (that is the scenario)");
    }
    // What the zombie took is past its high-water mark: no consumer sees it.
    let (hwm, _) = c.fetch(zombie, "z", 0);
    assert_eq!(hwm, 100);
    for base in (0..40u64).step_by(20) {
        c.produce(new_leader, "z", Acks::All, numbered("new-epoch", base..base + 20)).unwrap();
    }

    c.cut.remove(&zombie);
    c.run(3000);
    assert_eq!(c.isr("z").len(), 3, "zombie rejoins the ISR as follower");
    let healed = c.log(zombie, "z");
    assert_eq!(healed.len(), 140, "100 committed + 40 new-epoch records");
    assert!(
        healed.iter().all(|r| !r.value.starts_with(b"zombie-")),
        "zombie's acks=1 divergence must have been truncated"
    );
    assert_eq!(healed, c.log(new_leader, "z"));
}

#[test]
fn a_follower_refuses_producers() {
    let mut c = Cluster::start(3, 2, 700, 1000);
    c.create("t", 1, 3);
    let leader = c.leader("t") as usize;
    let follower = (leader + 1) % 3;
    let err = c.produce(follower, "t", Acks::Written, vec![b"x".to_vec()]).unwrap_err();
    assert!(matches!(err, ClientError::Broker(ErrorCode::NotLeader)), "got {err:?}");
    // A stale epoch is fenced at the leader itself.
    let now = c.now;
    let node = c.nodes[leader].as_mut().unwrap();
    let stale = Connection::produce("t", 0, Acks::Written, 99, vec![]);
    assert_eq!(refusal(node.handle(stale, now)), ErrorCode::FencedEpoch);
    // Nobody waits for acks=0, not even for an error.
    assert!(matches!(node.produce("nope", 0, Acks::NoAck, vec![], now), Answer::Silent));
}

#[test]
fn topics_are_created_by_the_controller() {
    let mut c = Cluster::start(3, 2, 700, 1000);
    let now = c.now;
    let node = c.nodes[0].as_mut().unwrap();
    let forwarded = match node.handle(Connection::create_topic("t", 1, 3), now) {
        Answer::Controller(req) => req,
        _ => panic!("a clustered broker must ask the controller"),
    };
    let resp = c.controller_call(&forwarded);
    Connection::topic_created(resp).unwrap();
    let resp = c.controller_call(&Connection::create_topic("t", 1, 3));
    assert!(matches!(
        Connection::topic_created(resp),
        Err(ClientError::Broker(ErrorCode::TopicExists))
    ));
    let resp = c.controller_call(&Connection::create_topic("u", 1, 4));
    assert!(matches!(
        Connection::topic_created(resp),
        Err(ClientError::Broker(ErrorCode::Malformed))
    ));
    let resp = c.controller_call(&Connection::create_topic("v", 0, 3));
    assert!(matches!(
        Connection::topic_created(resp),
        Err(ClientError::Broker(ErrorCode::Malformed))
    ));
}

#[test]
fn a_controller_restarts_from_its_snapshot() {
    let config =
        ControllerConfig { state_file: "controller.state".to_string(), session_timeout_ms: 700 };
    let mut controller = Controller::new(config.clone(), None).unwrap();
    let mut file = None;
    let mut call = |controller: &mut Controller, req: &Request, now: u64| {
        let frame = encode_request(req, 1);
        match controller.serve(&frame[4..], now) {
            Served::Reply { frame, snapshot } => {
                if let Some(bytes) = snapshot {
                    file = Some(bytes);
                }
                decode_response(&frame[4..]).unwrap().1
            }
            _ => panic!("no answer"),
        }
    };
    for id in 0..3u32 {
        call(
            &mut controller,
            &Request::RegisterBroker {
                broker_id: id,
                addr: format!("b{id}"),
                peer_addr: format!("p{id}"),
            },
            0,
        );
    }
    call(&mut controller, &Connection::create_topic("t", 2, 3), 0);
    let before = call(&mut controller, &Request::ControllerMetadata, 0);
    let before = Connection::controller_metadata(before).unwrap();
    assert_eq!(before.topics[0].partitions.len(), 2);
    let bytes = file.unwrap();

    let mut again = Controller::new(config.clone(), Some(&bytes)).unwrap();
    let frame = encode_request(&Request::ControllerMetadata, 1);
    match again.serve(&frame[4..], 0) {
        Served::Reply { frame, snapshot } => {
            assert!(snapshot.is_none());
            let (_, resp) = decode_response(&frame[4..]).unwrap();
            let after = Connection::controller_metadata(resp).unwrap();
            assert_eq!(after.topics, before.topics);
            assert_eq!(after.version, before.version);
        }
        _ => panic!("no answer"),
    }
    assert!(matches!(again.serve(&[1, 2, 3], 0), Served::Undecodable(_)));
    assert!(Controller::new(config, Some(&bytes[..bytes.len() - 1])).is_err());
    // Silence past the session timeout counts as death, and is persisted.
    assert!(controller.sweep(700).is_none());
    assert!(controller.sweep(701).is_some());
}
