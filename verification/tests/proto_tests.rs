use replog::proto::{
    decode_request, decode_response, encode_request, encode_response, frame_length,
    try_encode_request, try_encode_response, Acks, ClusterMeta, ErrorCode, FetchedRecord,
    PartitionMeta, ProduceRecord, ProtoError, Request, Response, TopicMeta, VERSION,
};

fn roundtrip_request(req: Request) {
    let frame = encode_request(&req, 42);
    let (corr, decoded) = decode_request(&frame[4..]).expect("decode");
    assert_eq!(corr, 42);
    assert_eq!(decoded, req);
}

fn roundtrip_response(resp: Response) {
    let frame = encode_response(&resp, 7);
    let (corr, decoded) = decode_response(&frame[4..]).expect("decode");
    assert_eq!(corr, 7);
    assert_eq!(decoded, resp);
}

#[test]
fn request_roundtrips() {
    roundtrip_request(Request::CreateTopic {
        topic: "orders".into(),
        partitions: 8,
        replication_factor: 3,
    });
    roundtrip_request(Request::Metadata);
    roundtrip_request(Request::Produce {
        topic: "orders".into(),
        partition: 3,
        acks: Acks::All,
        leader_epoch: 7,
        records: vec![
            ProduceRecord {
                key: None,
                value: vec![],
            },
            ProduceRecord {
                key: Some(b"k".to_vec()),
                value: vec![0xAB; 100_000],
            },
        ],
    });
    roundtrip_request(Request::ReplicaFetch {
        topic: "t".into(),
        partition: 2,
        follower_id: 1,
        leader_epoch: 5,
        offset: 900,
        max_bytes: 1 << 20,
        max_wait_ms: 250,
    });
    roundtrip_request(Request::EpochCheck {
        topic: "t".into(),
        partition: 0,
        epoch: 4,
    });
    roundtrip_request(Request::RegisterBroker {
        broker_id: 2,
        addr: "127.0.0.1:9202".into(),
        peer_addr: "127.0.0.1:9202".into(),
    });
    roundtrip_request(Request::BrokerHeartbeat {
        broker_id: 2,
        metadata_version: 17,
    });
    roundtrip_request(Request::AlterIsr {
        topic: "t".into(),
        partition: 1,
        leader_epoch: 5,
        isr: vec![0, 2],
    });
    roundtrip_request(Request::ControllerMetadata);
    roundtrip_request(Request::Fetch {
        topic: "t".into(),
        partition: 0,
        offset: u64::MAX,
        max_bytes: 1 << 20,
        max_wait_ms: 500,
    });
    roundtrip_request(Request::CommitOffset {
        group: "g".into(),
        topic: "t".into(),
        partition: 1,
        offset: 99,
        member_id: "m-3".into(),
        generation: 7,
    });
    roundtrip_request(Request::FetchOffset {
        group: "g".into(),
        topic: "t".into(),
        partition: 1,
    });
    roundtrip_request(Request::JoinGroup {
        group: "g".into(),
        member_id: String::new(),
        session_timeout_ms: 3000,
        topics: vec!["a".into(), "b".into()],
    });
    roundtrip_request(Request::Heartbeat {
        group: "g".into(),
        member_id: "m-1".into(),
        generation: 4,
    });
    roundtrip_request(Request::LeaveGroup {
        group: "g".into(),
        member_id: "m-1".into(),
    });
}

#[test]
fn response_roundtrips() {
    roundtrip_response(Response::CreateTopic {
        error: ErrorCode::TopicExists,
    });
    let cluster = ClusterMeta {
        version: 12,
        brokers: vec![(0, "127.0.0.1:9200".into()), (1, "127.0.0.1:9201".into())],
        peers: vec![(0, "broker-0:9000".into()), (1, "broker-1:9000".into())],
        topics: vec![TopicMeta {
            name: "orders".into(),
            partitions: vec![
                PartitionMeta {
                    partition: 0,
                    leader: 1,
                    leader_epoch: 3,
                    replicas: vec![0, 1],
                    isr: vec![1],
                },
                PartitionMeta {
                    partition: 1,
                    leader: -1,
                    leader_epoch: 9,
                    replicas: vec![0, 1],
                    isr: vec![],
                },
            ],
        }],
    };
    roundtrip_response(Response::Metadata {
        error: ErrorCode::NoError,
        cluster: cluster.clone(),
    });
    roundtrip_response(Response::ControllerMetadata {
        error: ErrorCode::NoError,
        cluster,
    });
    roundtrip_response(Response::ReplicaFetch {
        error: ErrorCode::NoError,
        leader_epoch: 4,
        log_end: 1000,
        high_watermark: 990,
        records: vec![FetchedRecord {
            offset: 998,
            timestamp_ms: 55,
            key: None,
            value: b"r".to_vec(),
        }],
    });
    roundtrip_response(Response::EpochCheck {
        error: ErrorCode::NoError,
        end_offset: 456,
    });
    roundtrip_response(Response::RegisterBroker {
        error: ErrorCode::NoError,
        metadata_version: 3,
    });
    roundtrip_response(Response::BrokerHeartbeat {
        error: ErrorCode::FencedEpoch,
        metadata_version: 4,
    });
    roundtrip_response(Response::AlterIsr {
        error: ErrorCode::NotLeader,
        metadata_version: 5,
    });
    roundtrip_response(Response::Produce {
        error: ErrorCode::NoError,
        base_offset: 12345,
        count: 10,
    });
    roundtrip_response(Response::Fetch {
        error: ErrorCode::NoError,
        log_start: 5,
        next_offset: 8,
        records: vec![FetchedRecord {
            offset: 7,
            timestamp_ms: -1,
            key: Some(vec![1, 2, 3]),
            value: b"value".to_vec(),
        }],
    });
    roundtrip_response(Response::CommitOffset {
        error: ErrorCode::NoError,
    });
    roundtrip_response(Response::FetchOffset {
        error: ErrorCode::NoError,
        offset: -1,
    });
    roundtrip_response(Response::JoinGroup {
        error: ErrorCode::NoError,
        member_id: "m-2".into(),
        generation: 9,
        assignment: vec![("t".into(), 0), ("t".into(), 3)],
    });
    roundtrip_response(Response::Heartbeat {
        error: ErrorCode::StaleGeneration,
    });
    roundtrip_response(Response::LeaveGroup {
        error: ErrorCode::UnknownMember,
    });
}

#[test]
fn truncated_frames_rejected() {
    let req = Request::Produce {
        topic: "t".into(),
        partition: 0,
        acks: Acks::Written,
        leader_epoch: 0,
        records: vec![ProduceRecord {
            key: Some(b"key".to_vec()),
            value: b"value".to_vec(),
        }],
    };
    let frame = encode_request(&req, 1);
    let body = &frame[4..];
    for cut in 0..body.len() {
        assert!(
            decode_request(&body[..cut]).is_err(),
            "truncation at {cut} bytes must not decode"
        );
    }
}

#[test]
fn garbage_headers_rejected() {
    assert!(matches!(
        decode_request(&[9, 1, 0, 0, 0, 0]),
        Err(ProtoError::BadVersion(9))
    ));
    assert!(matches!(
        decode_request(&[VERSION, 0x7F, 0, 0, 0, 0]),
        Err(ProtoError::UnknownMsgType(0x7F))
    ));
    let mut frame = encode_request(&Request::Metadata, 3);
    frame.push(0xEE);
    assert!(decode_request(&frame[4..]).is_err(), "trailing bytes must fail");
}

#[test]
fn frame_bytes_are_exact() {
    let frame = encode_request(
        &Request::FetchOffset { group: "g".into(), topic: "tt".into(), partition: 5 },
        0x0102_0304,
    );
    let want = [
        17, 0, 0, 0, // length of what follows
        1, 6, // version, type
        4, 3, 2, 1, // correlation id
        1, 0, b'g', 2, 0, b't', b't', // texts
        5, 0, 0, 0,
    ];
    assert_eq!(frame, want);
    let frame = encode_response(
        &Response::FetchOffset { error: ErrorCode::NoError, offset: -1 },
        7,
    );
    let mut want = vec![16, 0, 0, 0, 1, 0x86, 7, 0, 0, 0, 0, 0];
    want.extend_from_slice(&[0xFF; 8]);
    assert_eq!(frame, want);
}

#[test]
fn texts_that_are_no_utf8_are_malformed() {
    let mut frame = encode_request(
        &Request::FetchOffset { group: "g".into(), topic: "t".into(), partition: 0 },
        1,
    );
    // The group's only byte.
    frame[12] = 0xFF;
    match decode_request(&frame[4..]) {
        Err(ProtoError::Malformed(text)) => assert_eq!(text, "invalid utf-8 in string"),
        other => panic!("decoded {other:?}"),
    }
    frame[12] = b'h';
    match decode_request(&frame[4..]) {
        Ok((1, Request::FetchOffset { group, .. })) => assert_eq!(group, "h"),
        other => panic!("decoded {other:?}"),
    }
}

#[test]
fn texts_of_more_than_a_length_field_have_no_frame() {
    let create = |n: usize| Request::CreateTopic {
        topic: "é".repeat(n),
        partitions: 1,
        replication_factor: 0,
    };
    // Two bytes a character: 65534 of them fit, 65536 do not.
    let frame = try_encode_request(&create(32767), 3).unwrap();
    assert_eq!(decode_request(&frame[4..]).unwrap(), (3, create(32767)));
    assert_eq!(try_encode_request(&create(32768), 3), None);
    let joined = |n: usize| Response::JoinGroup {
        error: ErrorCode::NoError,
        member_id: "m".into(),
        generation: 1,
        assignment: vec![("t".repeat(n), 0)],
    };
    assert!(try_encode_response(&joined(65535), 3).is_some());
    assert_eq!(try_encode_response(&joined(65536), 3), None);
}

#[test]
fn protocol_errors_have_messages() {
    let mut frame = encode_request(&Request::Metadata, 3);
    frame.push(0xEE);
    let trailing = decode_request(&frame[4..]).unwrap_err();
    assert_eq!(trailing.message(), "malformed frame: 1 trailing bytes after message body");
    assert!(matches!(decode_request(&[]), Err(ProtoError::Truncated)));
    assert!(matches!(decode_response(&[VERSION, 1, 0, 0, 0, 0]), Err(ProtoError::UnknownMsgType(1))));
    assert!(matches!(
        decode_response(&[VERSION, 0x88, 0, 0, 0, 0, 99, 0]),
        Err(ProtoError::Malformed(_))
    ));
    assert!(matches!(Acks::from_u8(4), Err(ProtoError::Malformed(_))));
    for n in 0..12 {
        assert_eq!(ErrorCode::from_u16(n).unwrap().to_u16(), n);
    }
    assert!(matches!(ErrorCode::from_u16(12), Err(ProtoError::Malformed(_))));
}

#[test]
fn frame_lengths_are_bounded() {
    assert_eq!(frame_length([6, 0, 0, 0]), Ok(6));
    assert_eq!(frame_length([0, 0, 0, 2]), Ok(33_554_432));
    assert_eq!(frame_length([0, 0, 0, 0]).unwrap_err(), "frame length 0 out of bounds");
    assert_eq!(frame_length([1, 0, 0, 2]).unwrap_err(), "frame length 33554433 out of bounds");
}
