use replog::checker::History;
use replog::harness::rng::SplitMix64;
use replog::proto::{ClusterMeta, FetchedRecord, PartitionMeta, TopicMeta};
use replog::torture::cluster::{all_led, majority, Fault, FaultTarget, HealthStreak};
use replog::torture::docker::{failure, Docker};
use replog::torture::failover::{
    outcome_csv_row, outcomes_csv_header, percentiles, AckClock, FaultOutcome, LeaderChange,
    LeaderWatch,
};
use replog::torture::kafka::{
    http_body, http_request, is_admin_healthy, json_array_len, json_number, response_body,
    sees_whole_cluster, KafkaTarget, KafkaTargetSpec,
};
use replog::torture::kmeta::{metadata_request, read_length, read_response};
use replog::torture::preset::{preset, run_config};
use replog::torture::probe::{
    budget_ms, has_moved, judge, render, still_claims, views_note, Probe, ProbeRow,
};
use replog::torture::process::{
    draw_process_fault, process_fault_message, process_heal_message, process_role, ProcessFault,
};
use replog::torture::replog::{
    is_fully_replicated, leaders_from, records_for, ReplogReader, ReplogTarget, ReplogTargetSpec,
};
use replog::torture::run::{hundredths, Drain, Run};
use replog::torture::schedule::{
    batch_ids, event_line, fault_outcome, leaders_log, reader_name, strike_message,
    timeline_csv, zero_ack_seconds, outcomes_csv, Strike, TimelineRow,
};
use replog::torture::workload::{decode_id, encode_value, AckLevel};

fn args(list: &[&str]) -> Vec<String> {
    list.iter().map(|s| s.to_string()).collect()
}

#[test]
fn faults_are_named_and_parsed() {
    for f in Fault::all() {
        assert_eq!(Fault::parse(f.name()), Ok(f));
    }
    assert_eq!(Fault::parse("  pause\n"), Ok(Fault::Pause));
    assert_eq!(
        Fault::parse("ki\"ll").unwrap_err(),
        "unknown fault \"ki\\\"ll\" (kill|pause|isolate)"
    );
    assert_eq!(
        Fault::parse_list("kill,,isolate,kill").unwrap(),
        [Fault::Kill, Fault::Isolate, Fault::Kill]
    );
    assert_eq!(Fault::parse_list(",").unwrap_err(), "fault list is empty");
}

#[test]
fn ack_levels_are_named_and_parsed() {
    assert_eq!(AckLevel::parse(AckLevel::All.name()), Ok(AckLevel::All));
    assert_eq!(AckLevel::parse("1"), Ok(AckLevel::LeaderOnly));
    assert_eq!(AckLevel::parse("two").unwrap_err(), "unknown ack level \"two\" (1|all)");
}

#[test]
fn values_hold_their_ids() {
    assert_eq!(encode_value(0x0102, 4), [2, 1, 0, 0, 0, 0, 0, 0]);
    let v = encode_value(u64::MAX, 100);
    assert_eq!(v.len(), 100);
    assert_eq!(decode_id(&v), Some(u64::MAX));
    assert_eq!(decode_id(&v[..7]), None);
    let rs = records_for(&batch_ids(5, 3), 16);
    assert_eq!(rs.len(), 3);
    assert_eq!(decode_id(&rs[2].value), Some(7));
}

#[test]
fn a_lone_zombie_never_wins_the_vote() {
    let views = vec![Some(vec![0, 1]), Some(vec![1, 1]), Some(vec![1, -1])];
    assert_eq!(majority(&views, 2), [1, 1]);
    let views = vec![Some(vec![0]), None, Some(vec![1])];
    assert_eq!(majority(&views, 1), [-1]);
    assert!(all_led(&vec![0, 2]));
    assert!(!all_led(&vec![0, -1]));
}

#[test]
fn health_needs_two_reads_in_a_row() {
    let mut s = HealthStreak::new();
    assert!(!s.read(true));
    assert!(!s.read(false));
    assert!(!s.read(true));
    assert!(s.read(true));
    assert!(s.read(true));
    assert!(!s.read(false));
}

#[test]
fn docker_command_lines() {
    let d = Docker::new(args(&["c0", "c1"]), "peers".to_string());
    assert_eq!(d.apply(1, Fault::Kill), ["kill", "-s", "KILL", "c1"]);
    assert_eq!(d.apply(0, Fault::Pause), ["pause", "c0"]);
    assert_eq!(d.apply(0, Fault::Isolate), ["network", "disconnect", "peers", "c0"]);
    assert_eq!(d.heal(1, Fault::Kill), ["start", "c1"]);
    assert_eq!(d.heal(0, Fault::Pause), ["unpause", "c0"]);
    assert_eq!(d.heal(0, Fault::Isolate), ["network", "connect", "peers", "c0"]);
    assert!(d.on_peers_network("bridge peers "));
    assert!(!d.on_peers_network("bridge peers2"));
    assert!(Docker::is_true("true"));
    assert_eq!(failure(&args(&["pause", "c0"]), "no such"), "docker pause c0 failed: no such");
}

#[test]
fn leader_changes_are_noted() {
    let mut w = LeaderWatch::new(1);
    w.observe(vec![Some(vec![0]), Some(vec![0]), Some(vec![0])], 9_500_000);
    assert_eq!(w.current(), [0]);
    w.observe(vec![None, Some(vec![1]), Some(vec![1])], 500_200_000);
    assert_eq!(w.current(), [1]);
    let change = w.first_new_leader_after(500_200_000, 0, 0).unwrap();
    assert_eq!((change.at_ns, change.old_leader, change.new_leader), (500_200_000, 0, 1));
    // A change in the fault's own millisecond, but before it, is none after it.
    assert!(w.first_new_leader_after(500_200_001, 0, 0).is_none());
    assert_eq!(
        leaders_log(w.changes()),
        "[t=  0.010s] p0 leader -1 -> 0\n[t=  0.500s] p0 leader 0 -> 1\n"
    );
}

#[test]
fn ack_gaps_are_measured() {
    let mut c = AckClock::new(2);
    assert_eq!(c.last_ack(0), None);
    c.record(0, 5, 100);
    c.reset_gap(0);
    c.record(0, 5, 400);
    assert_eq!(c.acked(0), 10);
    assert_eq!(c.max_gap(0, 450), Some(300));
    assert_eq!(c.max_gap(0, 1000), Some(600));
    assert_eq!(c.acked_after(0, 400), None);
    assert_eq!(c.acked_after(0, 399), Some(400));
    assert_eq!(c.max_gap(1, 1000), None);
    assert_eq!(c.partitions(), 2);
}

#[test]
fn percentiles_are_exact() {
    assert_eq!(percentiles(&vec![]), None);
    assert_eq!(percentiles(&vec![7]), Some((7, 7, 7, 7, 1)));
    let xs: Vec<u64> = (1..=11).rev().collect();
    assert_eq!(percentiles(&xs), Some((1, 6, 10, 11, 11)));
    assert_eq!(percentiles(&vec![40, 10, 20, 30]), Some((10, 30, 40, 40, 4)));
}

fn outcome(fault: &'static str, role: &'static str, moved: Option<u64>, gap: Option<u64>) -> FaultOutcome {
    FaultOutcome {
        fault,
        victim: 1,
        t0_ms: 2345,
        cli_ms: 12,
        heal_after_ms: 3000,
        partition: 0,
        role,
        leader_moved_ms: moved,
        new_leader: 2,
        first_ack_ms: None,
        max_gap_ms: gap,
    }
}

#[test]
fn outcomes_are_written_as_csv() {
    let o = outcome("kill", "leader", Some(700), Some(900));
    assert_eq!(outcome_csv_row(&o), "kill,1,2.345,12,3000,0,leader,700,2,,900");
    assert_eq!(
        outcomes_csv(&vec![o]),
        format!("{}\nkill,1,2.345,12,3000,0,leader,700,2,,900\n", outcomes_csv_header())
    );
}

#[test]
fn silent_seconds_are_counted() {
    let row = |second, partition, acked| TimelineRow { second, partition, acked };
    let rows = vec![row(1, 0, 5), row(1, 1, 0), row(2, 0, 0), row(2, 1, 0), row(3, 0, 0)];
    assert_eq!(zero_ack_seconds(&rows, 2), 1);
    assert_eq!(zero_ack_seconds(&rows, 3), 2);
    assert_eq!(timeline_csv(&rows[..2].to_vec()), "second,partition,acked\n1,0,5\n1,1,0\n");
}

#[test]
fn events_are_logged_in_seconds() {
    assert_eq!(event_line(1234, "x"), "[t=  12.34s] x");
    assert_eq!(reader_name(1, 3), "reader-b-3");
    assert_eq!(reader_name(26, 0), "reader-{-0");
    assert_eq!(reader_name(158, 7), "reader-\u{ff}-7");
    assert_eq!((hundredths(1234), hundredths(1235)), (123, 124));
    let hit = Strike { victim: 1, heal_ms: 3000, fault: Fault::Pause };
    assert_eq!(
        strike_message(hit, "rl-1", &vec![1, 0]),
        "FAULT pause broker 1 (rl-1) [p0:leader p1:follower], heal in 3000 ms"
    );
    let at_ns = 900_399_999;
    let moved = LeaderChange { at_ns, partition: 0, old_leader: 1, new_leader: 2 };
    let o = fault_outcome(
        hit,
        "leader",
        400_600_000,
        7,
        0,
        Some(moved),
        Some(1_000_600_000),
        Some(8_999_999),
    );
    assert_eq!((o.t0_ms, o.leader_moved_ms, o.new_leader), (401, Some(499), 2));
    assert_eq!((o.first_ack_ms, o.max_gap_ms), (Some(600), Some(8)));
    let o = fault_outcome(hit, "follower", 400, 7, 1, None, None, None);
    assert_eq!((o.t0_ms, o.leader_moved_ms, o.new_leader), (0, None, -1));
    assert_eq!((o.first_ack_ms, o.max_gap_ms), (None, None));
}

fn config(list: &[&str]) -> replog::torture::schedule::RunConfig {
    run_config(&args(list)).unwrap()
}

#[test]
fn run_settings_come_from_arguments() {
    let c = config(&["--target", "replog", "--seed", "9", "--partitions", "4"]);
    assert_eq!(c.topic, "torture-9");
    assert_eq!(c.out_dir, "target/faults/replog/seed-9");
    assert_eq!((c.partitions, c.replication, c.readers_per_partition), (4, 3, 2));
    assert_eq!(c.faults, [Fault::Kill, Fault::Pause, Fault::Isolate]);
    assert_eq!((c.min_heal_ms, c.max_heal_ms, c.detect_ms), (3000, 6000, 1000));
    assert!(config(&["--target", "x", "--faults", "none"]).faults.is_empty());
    let bad = |list: &[&str]| run_config(&args(list)).unwrap_err();
    assert_eq!(bad(&[]), "--target is required");
    assert_eq!(bad(&["--target", "x", "--pace-ms", "soon"]), "--pace-ms needs an integer");
    assert_eq!(bad(&["--faults", "flood"]), "unknown fault \"flood\" (kill|pause|isolate)");
    assert_eq!(bad(&["--target", "x", "--acks", "9"]), "unknown ack level \"9\" (1|all)");
}

#[test]
fn presets_match_the_deployments() {
    let p = preset("redpanda").unwrap();
    assert_eq!(p.containers, ["rp-0", "rp-1", "rp-2"]);
    assert_eq!(p.client_addrs, ["localhost:29090", "localhost:29091", "localhost:29092"]);
    assert_eq!(p.admin_addrs, ["localhost:29640", "localhost:29641", "localhost:29642"]);
    let p = preset("replog").unwrap();
    assert_eq!(p.admin_addrs, ["localhost:29099"]);
    assert_eq!(p.peers_network, "replog-rl_peers");
    assert_eq!(preset("kafka").unwrap_err(), "unknown target \"kafka\" (redpanda|replog)");
}

#[test]
fn a_run_goes_through_its_steps() {
    let mut cfg = config(&["--target", "replog", "--seed", "5", "--duration-secs", "10"]);
    let names = args(&["rl-0", "rl-1", "rl-2"]);
    let mut run = Run::new(&cfg);
    let mut twin = Run::new(&cfg);
    let gap = run.next_gap(&cfg, 0).unwrap();
    assert!((800..3000).contains(&gap));
    assert_eq!(twin.next_gap(&cfg, 0), Some(gap), "the seed determines the schedule");
    let hit = run.strike(&cfg, &names, &vec![0, 1], gap).unwrap();
    let same = twin.strike(&cfg, &names, &vec![0, 1], gap).unwrap();
    assert_eq!((hit.victim, hit.heal_ms, hit.fault), (same.victim, same.heal_ms, same.fault));
    assert!(hit.victim < 3 && (3000..6000).contains(&hit.heal_ms));
    run.healed(hit, 5000);
    run.health(Ok(250), 5250);
    run.record(outcome(hit.fault.name(), "leader", Some(10), Some(20)));
    // The time is up.
    assert_eq!(run.next_gap(&cfg, 10_000), None);
    assert!(run.strike(&cfg, &names, &vec![0, 1], 10_000).is_none());
    // A cluster that does not re-form ends the faults.
    twin.health(Err("late".to_string()), 7000);
    assert_eq!(twin.next_gap(&cfg, 7000), None);
    assert!(twin.log_text().ends_with(
        "[t=   7.00s] HEALTH TIMEOUT after heal (late); stopping fault injection, run is CUT SHORT\n"
    ));
    cfg.faults.clear();
    assert_eq!(Run::new(&cfg).next_gap(&cfg, 0), None);

    run.ended(Ok(()), 9000);
    assert_eq!(run.drain(3, false, 9000), Drain::Waiting);
    assert_eq!(run.drain(3, true, 9500), Drain::TimedOut);
    assert_eq!(run.drain(0, true, 9500), Drain::Done);
    assert!(run.log_text().contains("] HEALTHY after 250 ms\n"));
    assert!(run.log_text().contains("drain timed out with 3 acked ids unread"));

    let mut h = History::new();
    h.record_produced(1, "t");
    h.record_consumed("reader-a-0", 0, "t", 0, 0, 1);
    h.record_consumed("reader-b-0", 0, "t", 0, 0, 1);
    let summary = run.summary(h.verify_from_start(), 2, 1, 0, 10);
    assert!(summary.ok());
    assert_eq!(summary.extra_duplicates(), 0);
    assert_eq!(summary.fault_counts.text(), format!("{{\"{}\": 1}}", hit.fault.name()));
}

#[test]
fn statistics_are_grouped_by_fault_and_role() {
    let mut run = Run::new(&config(&["--target", "replog"]));
    run.record(outcome("pause", "leader", Some(1500), Some(2000)));
    run.record(outcome("kill", "leader", Some(700), Some(900)));
    run.record(outcome("kill", "follower", None, None));
    run.record(outcome("kill", "leader", Some(800), None));
    let summary = run.summary(History::new().verify_from_start(), 2, 77, 3, 60);
    assert_eq!(
        summary.render_stats(),
        "fault    role      n   leader moved (min/p50/p90/max ms)   largest ack gap in fault window (min/p50/p90/max ms)\n\
         kill     follower  1   -                                    -\n\
         kill     leader    2   700/800/800/800 (n=2)                900/900/900/900 (n=1)\n\
         pause    leader    1   1500/1500/1500/1500 (n=1)            2000/2000/2000/2000 (n=1)\n\
         availability: 3 of 60 load-seconds had zero acks; 77 ids acked in total\n\
         duplicates: 0 deliveries beyond one per reader per id (2 readers per partition; raw checker count 0 includes the extra readers)\n"
    );
}

#[test]
fn a_probe_is_judged_and_rendered() {
    assert_eq!(budget_ms(1000), 15_000);
    assert_eq!(budget_ms(4000), 20_000);
    assert!(has_moved(2, 1) && !has_moved(1, 1) && !has_moved(-1, 1));
    assert!(still_claims(&vec![1], 1) && !still_claims(&vec![0], 1));
    assert!(judge(Fault::Kill, true, false, false, true).pass);
    let v = judge(Fault::Isolate, true, true, false, true);
    assert!(!v.pass);
    assert_eq!(v.note, Some("expected the isolated broker to still answer clients"));
    let v = judge(Fault::Pause, true, true, true, true);
    assert_eq!(v.note, Some("expected the victim to stop answering metadata"));
    assert!(!judge(Fault::Kill, false, false, false, true).pass);
    assert_eq!(
        views_note(&vec![Some(vec![2]), None, Some(vec![-1])]),
        "views at move: b0=2 b1=? b2=-1"
    );
    let rows = vec![ProbeRow {
        fault: Fault::Kill,
        victim: 1,
        leader_moved_ms: Some(812),
        new_leader: 2,
        victim_connect: false,
        victim_metadata: None,
        zombie_claim_ms: None,
        healed_ms: None,
        pass: false,
        notes: vec!["heal: late".to_string()],
    }];
    assert_eq!(
        render(&rows, 1000),
        "fault    victim  leader moved   new  victim port          zombie claim  healed    verdict   (detect timeout 1000 ms, budget 15000 ms)\n\
         kill     1          812 ms      2    refused                  -           never   FAIL\n\
         \x20        note: heal: late\n"
    );
}

fn meta(leader: i32, isr: Vec<u32>) -> ClusterMeta {
    ClusterMeta {
        version: 1,
        brokers: vec![(0, "a".to_string()), (1, "b".to_string())],
        peers: Vec::new(),
        topics: vec![TopicMeta {
            name: "t".to_string(),
            partitions: vec![PartitionMeta {
                partition: 0,
                leader,
                leader_epoch: 3,
                replicas: vec![0, 1],
                isr,
            }],
        }],
    }
}

#[test]
fn replog_targets_read_metadata() {
    let m = meta(1, vec![0, 1]);
    assert_eq!(leaders_from(&m, "t", 2), [1, -1]);
    assert_eq!(leaders_from(&m, "u", 1), [-1]);
    assert!(is_fully_replicated(&m, "t", 1, 2));
    assert!(!is_fully_replicated(&m, "t", 2, 2));
    assert!(!is_fully_replicated(&meta(1, vec![1]), "t", 1, 2));
    assert_eq!(process_role(&m, "t", 1, 1), "leader");
    assert_eq!(process_role(&m, "t", 1, 0), "follower");

    let target = ReplogTarget::new(ReplogTargetSpec {
        docker: Docker::new(args(&["rl-0"]), "peers".to_string()),
        client_addrs: args(&["localhost:29000"]),
        controller_addr: "localhost:29099".to_string(),
    });
    assert_eq!(target.broker_count(), 1);
    assert_eq!(target.broker_name(0), "rl-0");
    assert_eq!(target.client_addr(0), "localhost:29000");

    let mut reader = ReplogReader::new("t".to_string(), 0);
    let record = |offset: u64, value: Vec<u8>| FetchedRecord { offset, timestamp_ms: 0, key: None, value };
    let got = reader.fetched(&vec![record(0, encode_value(7, 8)), record(1, vec![1])]);
    assert_eq!(got, [(0, 7)]);
    assert_eq!(reader.position, 2);
    assert!(reader.fetched(&Vec::new()).is_empty());
    assert_eq!(reader.position, 2);
}

#[test]
fn process_faults_follow_the_seed() {
    let mut a = SplitMix64::new(3);
    let mut b = SplitMix64::new(3);
    for _ in 0..50 {
        let x = draw_process_fault(&mut a, 3, 500, 4000);
        let y = draw_process_fault(&mut b, 3, 500, 4000);
        assert_eq!((x.victim, x.heal_ms, x.kill), (y.victim, y.heal_ms, y.kill));
        assert!(x.victim < 3 && (500..4000).contains(&x.heal_ms));
    }
    let kill = ProcessFault { victim: 2, heal_ms: 900, kill: true };
    let cut = ProcessFault { kill: false, ..kill };
    assert_eq!(
        process_fault_message(kill, "leader"),
        "FAULT kill -9 broker 2 (leader), restart in 900 ms"
    );
    assert_eq!(
        process_fault_message(cut, "follower"),
        "FAULT partition broker 2 (follower) from controller, heal in 900 ms"
    );
    assert_eq!(process_heal_message(kill), "HEAL broker 2 restarted");
    assert_eq!(process_heal_message(cut), "HEAL broker 2 link restored");
}

#[test]
fn admin_answers_are_read() {
    assert_eq!(
        http_request("h:1", "/v1/brokers"),
        "GET /v1/brokers HTTP/1.0\r\nHost: h:1\r\n\r\n"
    );
    assert_eq!(http_body(b"HTTP/1.1 200 OK\r\nA: b\r\n\r\n{}").unwrap(), "{}");
    // Bytes that are no UTF-8 are replaced, not handed on.
    assert_eq!(http_body(b"HTTP/1.0 200 OK\r\n\r\n\xff!").unwrap(), "\u{fffd}!");
    assert_eq!(response_body("HTTP/1.0 503 Busy\r\nA: b\r\n\r\n").unwrap_err(), "http HTTP/1.0 503 Busy");
    assert_eq!(response_body("HTTP/1.0 200 OK").unwrap_err(), "no http body");

    let body = "{\"is_healthy\": true, \"leaderless_count\" : 0, \"under_replicated_count\": 0, \
                \"nodes_down\": [ ], \"all_nodes\": [0, 1, 2]}";
    assert_eq!(json_number(body, "leaderless_count"), Some(0));
    assert_eq!(json_number("{\"a\": -12}", "a"), Some(-12));
    assert_eq!(json_number("{\"a\": -9223372036854775808}", "a"), Some(i64::MIN));
    assert_eq!(json_number("{\"a\": 9223372036854775808}", "a"), None);
    assert_eq!(json_number("{\"a\": x}", "a"), None);
    assert_eq!(json_number(body, "missing"), None);
    assert_eq!(json_array_len(body, "nodes_down"), Some(0));
    assert_eq!(json_array_len(body, "all_nodes"), Some(3));
    assert_eq!(json_array_len(body, "is_healthy"), None);
    let broker = "{\"is_alive\": true, \"membership_status\": \"active\"}";
    let brokers = format!("[{broker},{broker},{broker}]");
    assert!(is_admin_healthy(body, &brokers, 3));
    assert!(!is_admin_healthy(body, &brokers, 2));
    assert!(!is_admin_healthy("{}", &brokers, 3));
}

fn be16(out: &mut Vec<u8>, v: i16) {
    out.extend_from_slice(&v.to_be_bytes());
}

fn be32(out: &mut Vec<u8>, v: i32) {
    out.extend_from_slice(&v.to_be_bytes());
}

fn text(out: &mut Vec<u8>, s: &str) {
    be16(out, s.len() as i16);
    out.extend_from_slice(s.as_bytes());
}

#[test]
fn kafka_metadata_is_asked_for_and_read() {
    let mut want = Vec::new();
    be16(&mut want, 3);
    be16(&mut want, 4);
    be32(&mut want, 7);
    text(&mut want, "replog-faults");
    be32(&mut want, 1);
    text(&mut want, "t");
    want.push(0);
    let req = metadata_request("t");
    assert_eq!(req[..4], (want.len() as i32).to_be_bytes());
    assert_eq!(req[4..], want[..]);

    assert_eq!(read_length(&[0, 0, 1, 0]), Ok(256));
    assert_eq!(read_length(&[255, 255, 255, 255]).unwrap_err(), "bad metadata frame length -1");

    let mut r = Vec::new();
    be32(&mut r, 7);
    be32(&mut r, 0);
    be32(&mut r, 2);
    for (id, host) in [(10, "a"), (11, "b")] {
        be32(&mut r, id);
        text(&mut r, host);
        be32(&mut r, 9092);
        be16(&mut r, -1);
    }
    be16(&mut r, -1);
    be32(&mut r, 10);
    be32(&mut r, 1);
    be16(&mut r, 0);
    text(&mut r, "t");
    r.push(0);
    be32(&mut r, 1);
    be16(&mut r, 0);
    be32(&mut r, 0);
    be32(&mut r, 11);
    for _ in 0..2 {
        be32(&mut r, 2);
        be32(&mut r, 10);
        be32(&mut r, 11);
    }
    let view = match read_response(&r, "t") {
        Ok(v) => v,
        Err(e) => panic!("{e}"),
    };
    assert_eq!(view.brokers.len(), 2);
    assert_eq!(view.brokers[1].1, "b");
    assert_eq!(view.partitions.len(), 1);
    assert_eq!(view.partitions[0].leader, 11);
    assert!(sees_whole_cluster(&view, 1, 2));
    assert!(!sees_whole_cluster(&view, 1, 3));
    let target = match KafkaTarget::new(KafkaTargetSpec {
        docker: Docker::new(args(&["rp-0", "rp-1"]), "peers".to_string()),
        client_addrs: args(&["a", "b"]),
        admin_addrs: Vec::new(),
        node_ids: vec![10, 11],
    }) {
        Ok(t) => t,
        Err(e) => panic!("{e}"),
    };
    assert_eq!(target.index_of(11), 1);
    assert_eq!(target.index_of(12), -1);
    assert_eq!(target.leaders_from(&view, 2), [1, -1]);
    assert_eq!(target.client_addr(1), "b");
    for cut in 0..r.len() {
        assert!(read_response(&r[..cut], "t").is_err(), "cut at {cut}");
    }
}

#[test]
fn a_probe_of_an_isolated_leader_runs_its_course() {
    let mut p = Probe::new(Fault::Isolate, 1, 1000);
    assert!(p.awaits_move(0) && p.awaits_move(14_999) && !p.awaits_move(15_000));
    // The victim's own claim, and a minority, move nothing.
    p.saw_views(&vec![Some(vec![1]), Some(vec![1]), None], 100);
    p.saw_views(&vec![Some(vec![2]), Some(vec![1]), None], 200);
    assert!(p.awaits_move(200) && !p.watches_claim());
    p.saw_views(&vec![Some(vec![2]), Some(vec![1]), Some(vec![2])], 300);
    assert!(!p.awaits_move(300) && p.watches_claim());
    p.saw_port(true, Some(vec![1]));
    assert!(!p.saw_claim(Ok(vec![1]), 400, 15_000));
    assert!(p.saw_claim(Ok(vec![2]), 500, 15_001));
    let row = p.finish(Ok(2500));
    assert_eq!((row.leader_moved_ms, row.new_leader), (Some(300), 2));
    assert_eq!((row.zombie_claim_ms, row.healed_ms, row.pass), (Some(500), Some(2500), true));
    assert_eq!(
        row.notes,
        vec!["views at move: b0=2 b1=1 b2=2", "victim's view after 500 ms: leader=2"]
    );
}

#[test]
fn a_probe_notes_what_went_wrong() {
    let moved = vec![Some(vec![0]), None, Some(vec![0])];
    let mut p = Probe::new(Fault::Isolate, 1, 1000);
    p.saw_views(&moved, 10);
    p.saw_port(false, None);
    assert!(p.saw_claim(Err("gone".to_string()), 20, 0));
    let row = p.finish(Err("cluster not healthy".to_string()));
    assert_eq!((row.zombie_claim_ms, row.healed_ms, row.pass), (Some(20), None, false));
    assert_eq!(
        row.notes,
        vec![
            "views at move: b0=0 b1=? b2=0",
            "victim stopped answering after 20 ms: gone",
            "heal: cluster not healthy",
            "expected the isolated broker to still answer clients",
        ]
    );

    let mut p = Probe::new(Fault::Isolate, 1, 1000);
    p.saw_views(&moved, 10);
    assert!(p.saw_claim(Ok(vec![1]), 15_021, 15_001));
    let row = p.finish(Ok(1));
    assert_eq!(row.zombie_claim_ms, None);
    assert_eq!(
        row.notes[1],
        "victim still claims leadership 15021 ms after isolate (budget exhausted)"
    );

    let row = Probe::new(Fault::Kill, 1, 1000).finish(Ok(1));
    assert_eq!((row.leader_moved_ms, row.new_leader, row.pass), (None, -1, false));
    assert!(row.notes.is_empty());
}
