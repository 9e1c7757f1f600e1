use replog::harness::bench::{bench_request, bench_value, is_topic_ready, leaders_to_dial};
use replog::harness::proxy::TcpProxy;
use replog::harness::rng::SplitMix64;
use replog::harness::{announced_addr, ClusterSpec};
use replog::proto::{Acks, ClusterMeta, PartitionMeta, Request, TopicMeta};

#[test]
fn matches_reference_vectors() {
    // First outputs for seed 0, from Vigna's splitmix64.c.
    let mut rng = SplitMix64::new(0);
    assert_eq!(rng.next_u64(), 0xE220_A839_7B1D_CDAF);
    assert_eq!(rng.next_u64(), 0x6E78_9E6A_A1B9_65F4);
    assert_eq!(rng.next_u64(), 0x06C4_5D18_8009_454F);
}

#[test]
fn same_seed_same_sequence() {
    let mut a = SplitMix64::new(42);
    let mut b = SplitMix64::new(42);
    for _ in 0..1000 {
        assert_eq!(a.next_u64(), b.next_u64());
    }
}

#[test]
fn range_stays_in_bounds_and_hits_everything() {
    let mut rng = SplitMix64::new(7);
    let mut seen = [false; 5];
    for _ in 0..200 {
        let v = rng.range(10, 15);
        assert!((10..15).contains(&v));
        seen[(v - 10) as usize] = true;
    }
    assert!(seen.iter().all(|s| *s), "all values in a small range appear");
}

#[test]
fn cut_kills_and_refuses_heal_restores() {
    let mut link = TcpProxy::new();
    let live = link.accept().unwrap();
    assert!(!link.is_stale(live));
    link.cut();
    assert!(link.is_stale(live), "live connection must die on cut");
    assert_eq!(link.accept(), None, "cut proxy must not carry data");
    assert!(!link.is_up());
    link.heal();
    assert!(link.is_up());
    let back = link.accept().unwrap();
    assert!(!link.is_stale(back));
    assert!(link.is_stale(live), "a heal does not bring a dead connection back");
}

#[test]
fn a_process_announces_its_address() {
    assert_eq!(
        announced_addr("replog broker listening on 127.0.0.1:4242\n").unwrap(),
        "127.0.0.1:4242"
    );
    assert!(announced_addr("").is_err());
}

#[test]
fn processes_get_their_arguments() {
    let spec = ClusterSpec::new("c".to_string(), "b".to_string(), "root".to_string());
    assert_eq!(spec.brokers, 3);
    let args = spec.controller_args("root/controller.state");
    assert_eq!(
        args,
        [
            "--listen",
            "127.0.0.1:0",
            "--state-file",
            "root/controller.state",
            "--session-timeout-ms",
            "700"
        ]
    );
    let args = spec.broker_args(2, "root/broker-2", "127.0.0.1:1");
    assert_eq!(args[..4], ["--listen", "127.0.0.1:0", "--data-dir", "root/broker-2"]);
    assert!(args.windows(2).any(|w| w == ["--broker-id", "2"]));
    assert!(args.windows(2).any(|w| w == ["--controller-addr", "127.0.0.1:1"]));
    assert!(args.windows(2).any(|w| w == ["--fsync", "batch:1048576:5"]));
}

#[test]
fn benchmarks_find_their_leaders() {
    let part = |n: u32, leader: i32, isr: Vec<u32>| PartitionMeta {
        partition: n,
        leader,
        leader_epoch: 1,
        replicas: vec![0, 1],
        isr,
    };
    let mut meta = ClusterMeta {
        version: 1,
        brokers: vec![(0, "a:1".to_string()), (1, "b:1".to_string())],
        peers: Vec::new(),
        topics: vec![TopicMeta {
            name: "bench".to_string(),
            partitions: vec![part(0, 1, vec![0, 1]), part(1, 0, vec![0, 1])],
        }],
    };
    assert!(is_topic_ready(&meta, "bench", 2, 2));
    assert_eq!(leaders_to_dial(&meta, "bench", 2, 2).unwrap(), ["b:1", "a:1"]);
    assert!(!is_topic_ready(&meta, "bench", 3, 2));
    assert!(!is_topic_ready(&meta, "other", 2, 2));
    meta.brokers.pop();
    assert_eq!(
        leaders_to_dial(&meta, "bench", 2, 2).unwrap_err(),
        "leader missing from broker list"
    );
    meta.topics[0].partitions[1].isr.pop();
    assert!(!is_topic_ready(&meta, "bench", 2, 2));

    let value = bench_value(10);
    assert_eq!(value, [0, 31, 62, 93, 124, 155, 186, 217, 248, 23]);
    match bench_request(5, 2, Acks::Written, 3, &value) {
        Request::Produce { partition: 1, records, leader_epoch: 0, .. } => {
            assert_eq!(records.len(), 3);
            assert_eq!(records[2].value, value);
        }
        other => panic!("unexpected request {other:?}"),
    }
}
