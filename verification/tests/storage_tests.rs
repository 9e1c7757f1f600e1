use std::collections::BTreeMap;

use replog::storage::log::{FileOp, SegmentFile};
use replog::storage::{
    AppendInfo, EpochCheckpoint, FsyncPolicy, Log, LogConfig, Record, StorageError,
};

/// The files of a log, in memory.
#[derive(Clone, Default)]
struct Files {
    segments: BTreeMap<u64, (Vec<u8>, Option<Vec<u8>>)>,
    syncs: usize,
}

impl Files {
    fn apply(&mut self, ops: Vec<FileOp>) {
        for op in ops {
            match op {
                FileOp::Create { base } => {
                    self.segments.insert(base, (Vec::new(), Some(Vec::new())));
                }
                FileOp::Append { base, log, index } => {
                    let s = self.segments.get_mut(&base).unwrap();
                    s.0.extend_from_slice(&log);
                    s.1.as_mut().unwrap().extend_from_slice(&index);
                }
                FileOp::Sync { base } => {
                    assert!(self.segments.contains_key(&base));
                    self.syncs += 1;
                }
                FileOp::Truncate { base, len } => {
                    self.segments.get_mut(&base).unwrap().0.truncate(len as usize);
                }
                FileOp::Reindex { base, index } => {
                    self.segments.get_mut(&base).unwrap().1 = Some(index);
                }
                FileOp::Remove { base } => {
                    self.segments.remove(&base).unwrap();
                }
            }
        }
    }

    fn segment_files(&self) -> Vec<SegmentFile> {
        self.segments
            .iter()
            .map(|(base, (log, index))| SegmentFile {
                base: *base,
                log: log.clone(),
                index: index.clone(),
            })
            .collect()
    }
}

/// A log over files in memory.
struct Disk {
    files: Files,
    log: Log,
}

impl Disk {
    fn open(mut files: Files, config: LogConfig) -> Result<Disk, StorageError> {
        let list = files.segment_files();
        for f in &list {
            assert!(f.is_openable());
        }
        let (log, ops) = Log::open(&list, config, 0)?;
        files.apply(ops);
        Ok(Disk { files, log })
    }

    fn append(&mut self, key: Option<Vec<u8>>, value: Vec<u8>) -> Result<AppendInfo, StorageError> {
        let (info, ops) = self.log.append(key, value, 0, 0)?;
        self.files.apply(ops);
        Ok(info)
    }

    fn append_replicated(&mut self, record: Record) -> Result<AppendInfo, StorageError> {
        let (info, ops) = self.log.append_replicated(record, 0)?;
        self.files.apply(ops);
        Ok(info)
    }

    fn flush(&mut self) -> Option<u64> {
        let (durable, op) = self.log.flush(0);
        self.files.apply(vec![op]);
        durable
    }

    fn read(&self, offset: u64, max_bytes: u64) -> Result<Vec<Record>, StorageError> {
        let buf = match self.log.read_span(offset) {
            Some(span) => {
                let log = &self.files.segments[&span.base].0;
                log[span.position as usize..(span.position + span.len) as usize].to_vec()
            }
            None => Vec::new(),
        };
        self.log.read(offset, max_bytes, &buf)
    }

    fn truncate_suffix(&mut self, new_next: u64) -> Result<(), StorageError> {
        let log = match self.log.truncation_span(new_next) {
            Some(span) => self.files.segments[&span.base].0[..span.len as usize].to_vec(),
            None => Vec::new(),
        };
        let ops = self.log.truncate_suffix(new_next, &log)?;
        self.files.apply(ops);
        Ok(())
    }

    fn read_all(&self) -> Vec<Record> {
        let mut out = Vec::new();
        let mut off = self.log.start_offset();
        while off < self.log.next_offset() {
            let recs = self.read(off, 1 << 20).unwrap();
            assert!(!recs.is_empty(), "read at in-range offset {off} returned nothing");
            for r in recs {
                assert_eq!(r.offset, off, "offsets must be dense and ordered");
                off += 1;
                out.push(r);
            }
        }
        out
    }
}

fn cfg(fsync: FsyncPolicy) -> LogConfig {
    LogConfig { fsync, ..LogConfig::default() }
}

#[test]
fn roundtrip_and_reopen_continuity() {
    let mut expected = Vec::new();
    let files = {
        let mut log = Disk::open(Files::default(), cfg(FsyncPolicy::Os)).unwrap();
        for i in 0..1000u64 {
            let key = if i % 7 == 0 { None } else { Some(format!("key-{i}").into_bytes()) };
            let value = match i % 5 {
                0 => Vec::new(),
                4 => vec![0xAB; 100 * 1024],
                _ => format!("value-{i}").into_bytes(),
            };
            let info = log.append(key.clone(), value.clone()).unwrap();
            assert_eq!(info.offset, i);
            expected.push((key, value));
        }
        log.flush();
        log.files
    };

    let mut log = Disk::open(files, cfg(FsyncPolicy::Os)).unwrap();
    assert_eq!(log.log.next_offset(), 1000);
    assert_eq!(log.log.durable_offset(), Some(999));
    let records = log.read_all();
    assert_eq!(records.len(), 1000);
    for (i, r) in records.iter().enumerate() {
        assert_eq!(r.key, expected[i].0);
        assert_eq!(r.value, expected[i].1);
    }

    let info = log.append(None, b"after-reopen".to_vec()).unwrap();
    assert_eq!(info.offset, 1000);

    assert!(log.read(0, 1024).is_ok());
    assert!(log.read(1001, 1024).unwrap().is_empty());
    assert!(matches!(log.read(1002, 1024), Err(StorageError::OffsetOutOfRange(_))));
}

#[test]
fn segment_roll_and_reads_across_segments() {
    let config = LogConfig {
        max_segment_bytes: 2048,
        index_interval_bytes: 256,
        fsync: FsyncPolicy::Os,
        ..LogConfig::default()
    };
    let files = {
        let mut log = Disk::open(Files::default(), config.clone()).unwrap();
        for i in 0..500u64 {
            log.append(None, format!("v-{i}").into_bytes()).unwrap();
        }
        log.flush();
        assert!(log.log.segment_count() > 3, "expected several segments");
        let records = log.read_all();
        assert_eq!(records.len(), 500);
        log.files
    };
    assert!(files.segments.len() > 3);

    let log = Disk::open(files, config).unwrap();
    let records = log.read_all();
    assert_eq!(records.len(), 500);
    for (i, r) in records.iter().enumerate() {
        assert_eq!(r.value, format!("v-{i}").into_bytes());
    }
}

/// The core crash-consistency property: truncate the log file at EVERY byte
/// position inside the final record, and recovery must always come back with
/// exactly the records whose bytes fully survived, then keep working.
#[test]
fn torn_tail_truncated_at_every_cut_point() {
    let config = cfg(FsyncPolicy::Os);
    let mut log = Disk::open(Files::default(), config.clone()).unwrap();
    for i in 0..4u64 {
        log.append(Some(vec![b'k'; 8]), format!("value-{i}").into_bytes()).unwrap();
    }
    log.flush();
    let len_before_last = log.files.segments[&0].0.len();
    log.append(Some(vec![b'k'; 8]), b"final-record".to_vec()).unwrap();
    log.flush();
    let len_full = log.files.segments[&0].0.len();

    for cut in len_before_last..len_full {
        let mut case = log.files.clone();
        case.segments.get_mut(&0).unwrap().0.truncate(cut);
        let mut log = match Disk::open(case, config.clone()) {
            Ok(log) => log,
            Err(e) => panic!("recovery failed at cut {cut}: {}", e.message()),
        };
        assert_eq!(log.log.next_offset(), 4, "cut at {cut}");
        let info = log.append(None, b"after-recovery".to_vec()).unwrap();
        assert_eq!(info.offset, 4);
        let records = log.read_all();
        assert_eq!(records.len(), 5);
        assert_eq!(records[4].value, b"after-recovery");
    }
}

#[test]
fn garbage_tail_is_truncated() {
    let config = cfg(FsyncPolicy::Os);
    let mut files = {
        let mut log = Disk::open(Files::default(), config.clone()).unwrap();
        for i in 0..3u64 {
            log.append(None, format!("v-{i}").into_bytes()).unwrap();
        }
        log.flush();
        log.files
    };
    files.segments.get_mut(&0).unwrap().0.extend_from_slice(&[0xFF; 64]);

    let log = Disk::open(files, config).unwrap();
    assert_eq!(log.log.next_offset(), 3);
    assert_eq!(log.read_all().len(), 3);
}

#[test]
fn corruption_in_rolled_segment_fails_loudly_on_open() {
    let config =
        LogConfig { max_segment_bytes: 1024, fsync: FsyncPolicy::Os, ..LogConfig::default() };
    let mut files = {
        let mut log = Disk::open(Files::default(), config.clone()).unwrap();
        for i in 0..200u64 {
            log.append(None, format!("value-{i}").into_bytes()).unwrap();
        }
        log.flush();
        assert!(log.log.segment_count() > 2);
        log.files
    };
    let bytes = &mut files.segments.get_mut(&0).unwrap().0;
    let mid = bytes.len() / 2;
    bytes[mid] ^= 0xFF;

    let err = match Disk::open(files, config) {
        Ok(_) => panic!("open must fail on a corrupted rolled segment"),
        Err(e) => e,
    };
    assert!(
        matches!(err, StorageError::Corrupt { .. }),
        "expected loud corruption error, got: {}",
        err.message()
    );
}

/// With a sparse index present, open-time recovery only scans a rolled
/// segment's tail — so mid-segment corruption must still be caught by the
/// read path's CRC check.
#[test]
fn corruption_detected_on_read() {
    let config = LogConfig {
        max_segment_bytes: 8192,
        index_interval_bytes: 128,
        fsync: FsyncPolicy::Os,
        ..LogConfig::default()
    };
    let mut log = Disk::open(Files::default(), config).unwrap();
    for i in 0..600u64 {
        log.append(None, format!("value-{i}").into_bytes()).unwrap();
    }
    log.flush();
    assert!(log.log.segment_count() > 1);

    log.files.segments.get_mut(&0).unwrap().0[100] ^= 0xFF;

    let mut saw_corrupt = false;
    let mut off = 0u64;
    while off < log.log.next_offset() {
        match log.read(off, 1 << 16) {
            Ok(recs) if recs.is_empty() => break,
            Ok(recs) => off = recs.last().unwrap().offset + 1,
            Err(StorageError::Corrupt { .. }) => {
                saw_corrupt = true;
                break;
            }
            Err(e) => panic!("unexpected error: {}", e.message()),
        }
    }
    assert!(saw_corrupt, "corrupted record served without error");
}

#[test]
fn index_files_rebuilt_when_deleted() {
    let config = LogConfig {
        max_segment_bytes: 4096,
        index_interval_bytes: 128,
        fsync: FsyncPolicy::Os,
        ..LogConfig::default()
    };
    let mut files = {
        let mut log = Disk::open(Files::default(), config.clone()).unwrap();
        for i in 0..300u64 {
            log.append(Some(format!("k{i}").into_bytes()), format!("value-{i}").into_bytes())
                .unwrap();
        }
        log.flush();
        log.files
    };
    for s in files.segments.values_mut() {
        s.1 = None;
    }

    let log = Disk::open(files, config).unwrap();
    let records = log.read_all();
    assert_eq!(records.len(), 300);
    for (i, r) in records.iter().enumerate() {
        assert_eq!(r.value, format!("value-{i}").into_bytes());
    }
    assert!(
        log.files.segments.values().all(|s| s.1.is_some()),
        "index files should be recreated on recovery"
    );
}

#[test]
fn durability_tracking_follows_policy() {
    // Os: nothing is durable until an explicit flush.
    let mut log = Disk::open(Files::default(), cfg(FsyncPolicy::Os)).unwrap();
    let info = log.append(None, b"a".to_vec()).unwrap();
    assert_eq!(info.durable_offset, None);
    assert_eq!(log.flush(), Some(0));

    // Always: every append is durable by the time it returns.
    let mut log = Disk::open(Files::default(), cfg(FsyncPolicy::Always)).unwrap();
    for i in 0..5u64 {
        let info = log.append(None, vec![b'x'; 8]).unwrap();
        assert_eq!(info.durable_offset, Some(i));
    }
    assert_eq!(log.files.syncs, 5);

    // Batch by bytes: durability advances only once the dirty budget trips.
    let mut log = Disk::open(
        Files::default(),
        cfg(FsyncPolicy::Batch { max_bytes: 64, max_ms: 3_600_000 }),
    )
    .unwrap();
    let a = log.append(None, vec![b'y'; 16]).unwrap();
    assert_eq!(a.durable_offset, None, "48 dirty bytes should not trip a 64-byte budget");
    let b = log.append(None, vec![b'y'; 16]).unwrap();
    assert_eq!(b.durable_offset, Some(1), "96 dirty bytes must trip the budget");
}

fn tiny_config() -> LogConfig {
    LogConfig {
        max_segment_bytes: 1024,
        index_interval_bytes: 128,
        fsync: FsyncPolicy::Os,
        ..LogConfig::default()
    }
}

fn build_log(records: u64) -> Disk {
    let mut log = Disk::open(Files::default(), tiny_config()).unwrap();
    for i in 0..records {
        log.append(Some(format!("k{i}").into_bytes()), format!("value-{i}").into_bytes()).unwrap();
    }
    log.flush();
    log
}

#[test]
fn truncate_suffix_at_every_offset() {
    let total = 120u64;
    let source = build_log(total);
    assert!(source.log.segment_count() > 3, "test needs multiple segments");

    for cut in 0..=total {
        let mut log = Disk::open(source.files.clone(), tiny_config()).unwrap();
        log.truncate_suffix(cut).unwrap();
        assert_eq!(log.log.next_offset(), cut, "cut at {cut}");

        let mut offset = 0u64;
        while offset < cut {
            let records = log.read(offset, 1 << 20).unwrap();
            assert!(!records.is_empty());
            for r in &records {
                assert_eq!(r.offset, offset);
                assert_eq!(r.value, format!("value-{offset}").into_bytes());
                offset += 1;
            }
        }
        assert!(log.read(cut, 1 << 20).unwrap().is_empty());

        // The log keeps working after truncation, and survives reopen.
        let info = log.append(None, b"after-truncate".to_vec()).unwrap();
        assert_eq!(info.offset, cut);
        log.flush();
        let log = Disk::open(log.files, tiny_config()).unwrap();
        assert_eq!(log.log.next_offset(), cut + 1);
        let last = log.read(cut, 1 << 20).unwrap();
        assert_eq!(last[0].value, b"after-truncate".to_vec());
    }
}

#[test]
fn replicated_appends_preserve_offsets_and_reject_gaps() {
    let mut leader = build_log(50);
    let mut follower = Disk::open(Files::default(), tiny_config()).unwrap();

    let mut fetched = Vec::new();
    let mut pos = 0;
    while pos < leader.log.next_offset() {
        let batch = leader.read(pos, 4096).unwrap();
        pos = batch.last().unwrap().offset + 1;
        fetched.extend(batch);
    }
    for record in &fetched {
        follower.append_replicated(record.clone()).unwrap();
    }
    assert_eq!(follower.log.next_offset(), leader.log.next_offset());
    let replica_view = follower.read(10, 1 << 20).unwrap();
    let leader_view = leader.read(10, 1 << 20).unwrap();
    assert_eq!(replica_view, leader_view, "timestamps and keys must match too");

    let gap = Record {
        offset: follower.log.next_offset() + 5,
        timestamp_ms: 0,
        key: None,
        value: b"gap".to_vec(),
    };
    assert!(follower.append_replicated(gap).is_err());

    // Leaders keep assigning offsets correctly after replicated appends.
    let info = leader.append(None, b"tail".to_vec()).unwrap();
    assert_eq!(info.offset, 50);
}

#[test]
fn epoch_checkpoint_roundtrip_and_queries() {
    let mut ck = EpochCheckpoint::load(None).unwrap();
    assert_eq!(ck.current_epoch(), 0);
    assert_eq!(ck.end_offset_for(3, 100), 0, "unknown epoch shares nothing");

    let mut file = Vec::new();
    file.extend(ck.append(1, 0).unwrap());
    file.extend(ck.append(3, 40).unwrap());
    file.extend(ck.append(4, 90).unwrap());
    assert!(ck.append(2, 95).is_err(), "epochs must advance");

    let reloaded = EpochCheckpoint::load(Some(&file)).unwrap();
    assert_eq!(reloaded.entries(), &[(1, 0), (3, 40), (4, 90)]);
    assert_eq!(reloaded.current_epoch(), 4);

    // Epoch 1 ended where epoch 3 began. Epoch 2 is unknown here, so the
    // answer falls back to the end of the largest known epoch <= 2 (epoch 1).
    assert_eq!(reloaded.end_offset_for(1, 120), 40);
    assert_eq!(reloaded.end_offset_for(2, 120), 40);
    assert_eq!(reloaded.end_offset_for(3, 120), 90);
    assert_eq!(reloaded.end_offset_for(4, 120), 120, "current epoch runs to log end");
    assert_eq!(reloaded.end_offset_for(9, 120), 120);
    assert_eq!(reloaded.end_offset_for(0, 120), 0, "predates history entirely");

    let mut ck = reloaded;
    if let Some(bytes) = ck.truncate_to(60) {
        file = bytes;
    }
    assert_eq!(ck.entries(), &[(1, 0), (3, 40)]);
    let reloaded = EpochCheckpoint::load(Some(&file)).unwrap();
    assert_eq!(reloaded.entries(), &[(1, 0), (3, 40)]);
}

#[test]
fn record_bytes_are_exact() {
    let record = Record { offset: 7, timestamp_ms: -2, key: Some(b"k".to_vec()), value: b"vw".to_vec() };
    let mut bytes = Vec::new();
    record.encode(&mut bytes);
    // Length of what follows, checksum, then the fields, little endian.
    assert_eq!(bytes.len(), record.encoded_len());
    let mut body = Vec::new();
    body.extend_from_slice(&7u64.to_le_bytes());
    body.extend_from_slice(&(-2i64).to_le_bytes());
    body.extend_from_slice(&1i32.to_le_bytes());
    body.extend_from_slice(b"k");
    body.extend_from_slice(&2u32.to_le_bytes());
    body.extend_from_slice(b"vw");
    assert_eq!(&bytes[8..], &body[..]);
    assert_eq!(bytes[4..8], crc32fast::hash(&body).to_le_bytes());
    assert_eq!(crc32fast::hash(b"123456789"), 0xCBF4_3926);
    assert_eq!(bytes[..4], ((body.len() + 4) as u32).to_le_bytes());
}

#[test]
fn a_flipped_checksum_is_corrupt() {
    let record = Record { offset: 0, timestamp_ms: 0, key: None, value: b"v".to_vec() };
    let mut bytes = Vec::new();
    record.encode(&mut bytes);
    bytes[5] ^= 1;
    assert!(matches!(
        Record::decode(&bytes, 1 << 20),
        replog::storage::DecodeOutcome::Corrupt(_)
    ));
    assert!(matches!(
        Record::decode(&bytes[..3], 1 << 20),
        replog::storage::DecodeOutcome::Incomplete
    ));
}

#[test]
fn an_oversized_record_is_refused() {
    let config = LogConfig { max_record_bytes: 64, ..cfg(FsyncPolicy::Os) };
    let mut log = match Disk::open(Files::default(), config) {
        Ok(log) => log,
        Err(e) => {
            assert!(matches!(e, StorageError::InvalidConfig(_)));
            return;
        }
    };
    assert!(matches!(log.append(None, vec![0; 65]), Err(StorageError::RecordTooLarge(_))));
    assert_eq!(log.log.next_offset(), 0);
}

#[test]
fn a_bad_config_is_refused() {
    let config = LogConfig { max_segment_bytes: 1, ..cfg(FsyncPolicy::Os) };
    let err = match Disk::open(Files::default(), config) {
        Ok(_) => panic!("a segment of one byte was accepted"),
        Err(e) => e,
    };
    assert_eq!(
        err.message(),
        "invalid config: max_segment_bytes must be within [1 KiB, 1 GiB]"
    );
}

#[test]
fn a_missing_segment_is_an_invalid_layout() {
    let mut files = build_log(120).files;
    let second = *files.segments.keys().nth(1).unwrap();
    files.segments.remove(&second);
    let err = match Disk::open(files, tiny_config()) {
        Ok(_) => panic!("a log with a hole was opened"),
        Err(e) => e,
    };
    assert!(matches!(err, StorageError::InvalidLayout(_)), "{}", err.message());
}

#[test]
fn fsync_policies_are_parsed() {
    assert!(matches!(FsyncPolicy::parse("always"), Ok(FsyncPolicy::Always)));
    assert!(matches!(FsyncPolicy::parse("os"), Ok(FsyncPolicy::Os)));
    assert!(matches!(
        FsyncPolicy::parse("batch:1048576:5"),
        Ok(FsyncPolicy::Batch { max_bytes: 1_048_576, max_ms: 5 })
    ));
    assert!(FsyncPolicy::parse("batch:x:5").is_err());
    assert!(FsyncPolicy::parse("sometimes").is_err());
}

#[test]
fn batch_by_time_flushes_when_due() {
    let (mut log, _) = Log::open(
        &Vec::new(),
        cfg(FsyncPolicy::Batch { max_bytes: 1 << 20, max_ms: 50 }),
        1000,
    )
    .unwrap();
    let (a, _) = log.append(None, b"a".to_vec(), 0, 1010).unwrap();
    assert_eq!(a.durable_offset, None);
    let (b, _) = log.append(None, b"b".to_vec(), 0, 1050).unwrap();
    assert_eq!(b.durable_offset, Some(1));
}

/// The bytes of a record at an offset.
fn record_at(offset: u64) -> Vec<u8> {
    let mut bytes = Vec::new();
    Record { offset, timestamp_ms: 0, key: None, value: b"stray".to_vec() }.encode(&mut bytes);
    bytes
}

/// An intact record that does not continue the newest segment marks its torn
/// tail, and is cut off with all that follows.
#[test]
fn a_record_out_of_order_is_truncated() {
    let config = cfg(FsyncPolicy::Os);
    for offset in [0u64, 2, 4, 99] {
        let mut log = Disk::open(Files::default(), config.clone()).unwrap();
        for i in 0..3u64 {
            log.append(None, format!("v-{i}").into_bytes()).unwrap();
        }
        let mut files = log.files;
        let end = files.segments[&0].0.len();
        let bytes = &mut files.segments.get_mut(&0).unwrap().0;
        bytes.extend_from_slice(&record_at(offset));
        bytes.extend_from_slice(&record_at(3));

        let mut log = Disk::open(files, config.clone()).unwrap();
        assert_eq!(log.log.next_offset(), 3);
        assert_eq!(log.files.segments[&0].0.len(), end);
        assert_eq!(log.append(None, b"next".to_vec()).unwrap().offset, 3);
        let values: Vec<Vec<u8>> = log.read_all().into_iter().map(|r| r.value).collect();
        assert_eq!(values, vec![b"v-0".to_vec(), b"v-1".to_vec(), b"v-2".to_vec(), b"next".to_vec()]);
    }
}

#[test]
fn a_record_that_continues_the_log_is_kept() {
    let config = cfg(FsyncPolicy::Os);
    let mut log = Disk::open(Files::default(), config.clone()).unwrap();
    log.append(None, b"v-0".to_vec()).unwrap();
    let mut files = log.files;
    let bytes = &mut files.segments.get_mut(&0).unwrap().0;
    bytes.extend_from_slice(&record_at(1));
    bytes.extend_from_slice(&[0xFF; 5]);
    let log = Disk::open(files, config).unwrap();
    assert_eq!(log.log.next_offset(), 2);
    assert_eq!(log.read_all()[1].value, b"stray".to_vec());
}

#[test]
fn a_record_out_of_order_in_a_rolled_segment_is_corruption() {
    let mut files = build_log(100).files;
    assert!(files.segments.len() > 1);
    let bytes = &mut files.segments.get_mut(&0).unwrap().0;
    let end = bytes.len() as u64;
    bytes.extend_from_slice(&record_at(7777));
    match Disk::open(files, tiny_config()) {
        Err(StorageError::Corrupt { offset, position, reason }) => {
            assert_eq!((offset, position), (7777, end));
            assert!(reason.starts_with("offset discontinuity: expected "), "{reason}");
        }
        Err(e) => panic!("unexpected error: {}", e.message()),
        Ok(_) => panic!("open must fail"),
    }
}

/// An index that cannot be its segment's is built anew, as a missing one is.
#[test]
fn a_bad_index_is_rebuilt() {
    let built = build_log(100);
    let good = built.files.segments[&0].1.clone().unwrap();
    let len = built.files.segments[&0].0.len() as u32;
    let entry = |rel: u32, pos: u32| {
        let mut e = rel.to_le_bytes().to_vec();
        e.extend_from_slice(&pos.to_le_bytes());
        e
    };
    let bad = [
        entry(1, len + 1),       // behind the end of the file
        entry(u32::MAX, len),    // more records than bytes
        entry(2, 40),            // not enough bytes for the records before it
        vec![0; 7],              // no whole entry
    ];
    for index in bad {
        let mut files = built.files.clone();
        files.segments.get_mut(&0).unwrap().1 = Some(index);
        let log = Disk::open(files, tiny_config()).unwrap();
        assert_eq!(log.files.segments[&0].1.as_ref(), Some(&good));
        assert_eq!(log.read_all().len(), 100);
    }
}

/// Any one byte that changes behind a record's length field is found out, at a
/// read and at recovery.
#[test]
fn every_changed_byte_is_found_out() {
    let config = cfg(FsyncPolicy::Os);
    let mut log = Disk::open(Files::default(), config.clone()).unwrap();
    for i in 0..3u64 {
        log.append(Some(b"key".to_vec()), format!("value-{i}").into_bytes()).unwrap();
    }
    let len = log.files.segments[&0].0.len() / 3;
    for at in len + 4..2 * len {
        for flip in [0x01u8, 0x80, 0xFF] {
            log.files.segments.get_mut(&0).unwrap().0[at] ^= flip;
            assert!(matches!(log.read(1, 1), Err(StorageError::Corrupt { .. })));
            assert_eq!(log.read(0, 1).unwrap().len(), 1);
            let again = Disk::open(log.files.clone(), config.clone()).unwrap();
            assert_eq!(again.log.next_offset(), 1);
            log.files.segments.get_mut(&0).unwrap().0[at] ^= flip;
        }
    }
    assert_eq!(log.read_all().len(), 3);
}

/// A log whose only record is torn opens empty, and goes on from there.
#[test]
fn a_torn_only_record_leaves_an_empty_log() {
    let config = cfg(FsyncPolicy::Os);
    let mut log = Disk::open(Files::default(), config.clone()).unwrap();
    log.append(None, b"only".to_vec()).unwrap();
    let whole = log.files.clone();
    for cut in 0..whole.segments[&0].0.len() {
        let mut files = whole.clone();
        files.segments.get_mut(&0).unwrap().0.truncate(cut);
        let mut log = Disk::open(files, config.clone()).unwrap();
        assert_eq!((log.log.start_offset(), log.log.next_offset()), (0, 0));
        assert!(log.files.segments[&0].0.is_empty());
        assert_eq!(log.append(None, b"again".to_vec()).unwrap().offset, 0);
        assert_eq!(log.read_all()[0].value, b"again".to_vec());
    }
}

/// Known checksums of CRC-32 (IEEE).
#[test]
fn checksums_are_crc32() {
    assert_eq!(crc32fast::hash(b"123456789"), 0xCBF4_3926);
    assert_eq!(crc32fast::hash(b"12"), 0x4F53_44CD);
    assert_eq!(crc32fast::hash(b""), 0);
}
