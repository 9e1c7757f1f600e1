//! One partition's log: a row of segments, the last of them active.

use super::image::lemma_advance_size;
use super::index::{entries_bytes, entry_bytes, file_view};
use super::record::{encoded_size, encoding, Record, RecordView};
use super::scan::{lemma_scan_bounds, scan};
use super::segment::{
    advance, collect, empty_segment, locate, read_position, recovered, recovery_start, segment_ok,
    views, Recovery, Segment, SegmentView, Written,
};
use super::{FsyncPolicy, LogConfig, Result, StorageError, StorageFault};
use crate::order::{ascending, sort_numbers, texts};
use crate::proto::opt_view;
use crate::text::{chars_of, decimal, parse_number, parse_uint, push_decimal, same_chars};
use vstd::prelude::*;
use vstd::slice::*;
use vstd::string::*;

verus! {

/// Appends stop here, so that behind it a segment's worth of offsets can still be
/// counted.
pub const MAX_OFFSET: u64 = 0xffff_ffff_0000_0000;

/// The bookkeeping of one partition's log.
pub struct Log {
    config: LogConfig,
    segments: Vec<Segment>,
    durable_offset: Option<u64>,
    dirty_bytes: u64,
    last_flush_ms: u64,
}

/// What is known of a log.
pub struct LogView {
    pub config: LogConfig,
    pub segments: Seq<SegmentView>,
    pub durable: Option<u64>,
    pub dirty: nat,
    pub last_flush_ms: u64,
}

pub open spec fn segment_views(segments: Seq<Segment>) -> Seq<SegmentView> {
    segments.map_values(|s: Segment| s@)
}

impl View for Log {
    type V = LogView;

    closed spec fn view(&self) -> LogView {
        LogView {
            config: self.config,
            segments: segment_views(self.segments@),
            durable: self.durable_offset,
            dirty: self.dirty_bytes as nat,
            last_flush_ms: self.last_flush_ms,
        }
    }
}

#[derive(Debug, Clone, Copy)]
pub struct AppendInfo {
    pub offset: u64,
    /// Highest offset known to be on stable storage after this append.
    /// Under `Batch`/`Os` policies this trails `offset`; the broker must not
    /// ack `acks=all`-style writes past it.
    pub durable_offset: Option<u64>,
}

/// What is to be done to the files of a log, in order.
#[derive(Debug)]
pub enum FileOp {
    /// Make the empty files of a segment.
    Create { base: u64 },
    /// Append to a segment's log file and to its index file.
    Append { base: u64, log: Vec<u8>, index: Vec<u8> },
    /// Force a segment's log file to stable storage.
    Sync { base: u64 },
    /// Cut a segment's log file to a length, and force it to stable storage.
    Truncate { base: u64, len: u64 },
    /// Replace a segment's index file.
    Reindex { base: u64, index: Vec<u8> },
    /// Remove both files of a segment.
    Remove { base: u64 },
}

/// What a file operation says.
pub enum Op {
    Create { base: nat },
    Append { base: nat, log: Seq<u8>, index: Seq<u8> },
    Sync { base: nat },
    Truncate { base: nat, len: nat },
    Reindex { base: nat, index: Seq<u8> },
    Remove { base: nat },
}

impl View for FileOp {
    type V = Op;

    open spec fn view(&self) -> Op {
        match *self {
            FileOp::Create { base } => Op::Create { base: base as nat },
            FileOp::Append { base, log, index } => Op::Append {
                base: base as nat,
                log: log@,
                index: index@,
            },
            FileOp::Sync { base } => Op::Sync { base: base as nat },
            FileOp::Truncate { base, len } => Op::Truncate { base: base as nat, len: len as nat },
            FileOp::Reindex { base, index } => Op::Reindex { base: base as nat, index: index@ },
            FileOp::Remove { base } => Op::Remove { base: base as nat },
        }
    }
}

pub open spec fn ops_view(ops: Seq<FileOp>) -> Seq<Op> {
    ops.map_values(|o: FileOp| o@)
}

/// Where a log starts.
pub open spec fn start_of(v: LogView) -> nat {
    v.segments[0].base
}

/// Where a log ends.
pub open spec fn next_of(v: LogView) -> nat {
    v.segments.last().next
}

/// Each segment starts where the one before it ends.
pub open spec fn chained(segs: Seq<SegmentView>) -> bool {
    forall|i: int, j: int|
        #![trigger segs[i], segs[j]]
        0 <= i && j == i + 1 && j < segs.len() ==> segs[i].next == segs[j].base && segs[i].base
            < segs[j].base
}

/// Segments are consistent and chained, and the active one counts no more
/// records than bytes.
pub open spec fn log_ok(v: LogView) -> bool {
    &&& v.config.valid()
    &&& v.segments.len() > 0
    &&& chained(v.segments)
    &&& forall|i: int| 0 <= i < v.segments.len() ==> segment_ok(#[trigger] v.segments[i])
    &&& countable(v.segments.last())
}

/// A segment has no more records than bytes, and no bytes without a record.
pub open spec fn countable(s: SegmentView) -> bool {
    &&& s.next - s.base <= s.size
    &&& s.size > 0 ==> s.base < s.next
}

/// The offset before `next`, if there is one.
pub open spec fn before(next: nat) -> Option<u64> {
    if next == 0 {
        None
    } else {
        Some((next - 1) as u64)
    }
}

/// A log after a flush.
pub open spec fn flushed(v: LogView, now_ms: u64) -> LogView {
    LogView { durable: before(next_of(v)), dirty: 0, last_flush_ms: now_ms, ..v }
}

/// A log after its active segment was rolled.
pub open spec fn rolled(v: LogView, now_ms: u64) -> LogView {
    let f = flushed(v, now_ms);
    LogView { segments: f.segments.push(empty_segment(next_of(v))), ..f }
}

/// Whether a record starts a new segment.
pub open spec fn must_roll(v: LogView, len: nat) -> bool {
    v.segments.last().size > 0 && v.segments.last().size + len > v.config.max_segment_bytes
}

/// The time from `then_ms` to `now_ms`; none where the clock went backwards.
pub open spec fn elapsed(now_ms: u64, then_ms: u64) -> int {
    if now_ms >= then_ms {
        now_ms - then_ms
    } else {
        0
    }
}

/// Whether an append is followed by a flush.
pub open spec fn must_flush(policy: FsyncPolicy, dirty: nat, now_ms: u64, last_flush_ms: u64) -> bool {
    match policy {
        FsyncPolicy::Always => true,
        FsyncPolicy::Batch { max_bytes, max_ms } => dirty >= max_bytes || elapsed(
            now_ms,
            last_flush_ms,
        ) >= max_ms,
        FsyncPolicy::Os => false,
    }
}

/// A group commit of the same size that no time ends.
pub open spec fn by_size(policy: FsyncPolicy) -> FsyncPolicy {
    match policy {
        FsyncPolicy::Batch { max_bytes, .. } => FsyncPolicy::Batch { max_bytes, max_ms: u64::MAX },
        _ => policy,
    }
}

/// A log whose group commits end by their size alone.
pub open spec fn untimed(v: LogView) -> LogView {
    LogView { config: LogConfig { fsync: by_size(v.config.fsync), ..v.config }, ..v }
}

/// A log with a record written to its active segment.
pub open spec fn written(v: LogView, r: RecordView) -> LogView {
    LogView {
        segments: v.segments.drop_last().push(
            advance(v.segments.last(), r, v.config.index_interval_bytes, true),
        ),
        dirty: v.dirty + encoded_size(r),
        ..v
    }
}

/// A log with room for a record in its active segment.
pub open spec fn roomy(v: LogView, r: RecordView, now_ms: u64) -> LogView {
    if must_roll(v, encoded_size(r)) {
        rolled(v, now_ms)
    } else {
        v
    }
}

/// A log after an append.
pub open spec fn appended(v: LogView, r: RecordView, now_ms: u64) -> LogView {
    let w = written(roomy(v, r, now_ms), r);
    if must_flush(w.config.fsync, w.dirty, now_ms, w.last_flush_ms) {
        flushed(w, now_ms)
    } else {
        w
    }
}

/// The file operations of an append.
pub open spec fn append_ops(v: LogView, r: RecordView, now_ms: u64) -> Seq<Op> {
    let room = roomy(v, r, now_ms);
    let w = written(room, r);
    let seg = room.segments.last();
    let first = if must_roll(v, encoded_size(r)) {
        seq![Op::Sync { base: v.segments.last().base }, Op::Create { base: next_of(v) }]
    } else {
        Seq::empty()
    };
    let write = Op::Append {
        base: seg.base,
        log: encoding(r),
        index: if seg.since >= v.config.index_interval_bytes {
            entry_bytes(w.segments.last().entries.last())
        } else {
            Seq::empty()
        },
    };
    if must_flush(w.config.fsync, w.dirty, now_ms, w.last_flush_ms) {
        first.push(write).push(Op::Sync { base: seg.base })
    } else {
        first.push(write)
    }
}

/// The last segment that starts at `offset` or before.
pub open spec fn segment_at(segs: Seq<SegmentView>, offset: nat) -> int
    decreases segs.len(),
{
    if segs.len() == 0 || segs.last().base <= offset {
        segs.len() - 1
    } else {
        segment_at(segs.drop_last(), offset)
    }
}

/// What a read at `offset` gives, where `buf` holds the covering segment's file
/// from the position to read from.
pub open spec fn read_result(
    v: LogView,
    offset: u64,
    max_bytes: u64,
    buf: Seq<u8>,
) -> std::result::Result<Seq<RecordView>, StorageFault> {
    let s = v.segments[segment_at(v.segments, offset as nat)];
    if offset < start_of(v) || offset > next_of(v) {
        Err(StorageFault::OffsetOutOfRange(offset))
    } else if offset == next_of(v) {
        Ok(Seq::empty())
    } else {
        match collect(
            buf,
            read_position(s, offset as nat),
            offset,
            max_bytes,
            0,
            false,
            v.config.max_record_bytes,
        ) {
            Ok(rs) => Ok(rs),
            Err((at, reason)) => Err(
                StorageFault::Corrupt { offset: s.next as u64, position: at as u64, reason },
            ),
        }
    }
}

/// The bytes that a read needs: `len` bytes from `position` of a segment's log
/// file.
#[derive(Debug, Clone, Copy, PartialEq, Eq, Structural)]
pub struct ReadSpan {
    pub base: u64,
    pub position: u64,
    pub len: u64,
}

/// The segment that keeps the tail when a log is cut at `new_next`: the one
/// that covers the offset before it, or the first one.
pub open spec fn truncation_segment(v: LogView, new_next: nat) -> int {
    if new_next == start_of(v) {
        0
    } else {
        segment_at(v.segments, (new_next - 1) as nat)
    }
}

/// The smaller of what was durable and what is left.
pub open spec fn clamped(durable: Option<u64>, new_next: u64) -> Option<u64> {
    if durable is None || new_next == 0 {
        None
    } else if durable->0 <= new_next - 1 {
        durable
    } else {
        Some((new_next - 1) as u64)
    }
}

/// What cutting a log at `new_next` makes of it, where `log` holds the log file
/// of the segment that keeps the tail.
pub open spec fn truncated(v: LogView, new_next: u64, log: Seq<u8>) -> std::result::Result<
    LogView,
    StorageFault,
> {
    let t = truncation_segment(v, new_next as nat);
    let s = v.segments[t];
    let start = read_position(s, new_next as nat);
    if new_next >= next_of(v) {
        Ok(v)
    } else if new_next < start_of(v) {
        Err(StorageFault::OffsetOutOfRange(new_next))
    } else {
        match locate(log.skip(start as int), start, new_next, v.config.max_record_bytes) {
            Err((at, reason)) => Err(
                StorageFault::Corrupt { offset: s.next as u64, position: at as u64, reason },
            ),
            Ok(position) => match recovered(
                s.base,
                log.take(position as int),
                None,
                v.config,
                true,
            ) {
                Err(e) => Err(e),
                Ok(kept) => Ok(
                    LogView {
                        segments: v.segments.take(t).push(kept),
                        durable: clamped(v.durable, new_next),
                        ..v
                    },
                ),
            },
        }
    }
}

/// The removal of the segments from one place to another.
pub open spec fn remove_ops(segs: Seq<SegmentView>, from: int, to: int) -> Seq<Op>
    decreases to - from,
{
    if to <= from {
        Seq::empty()
    } else {
        remove_ops(segs, from, to - 1).push(Op::Remove { base: segs[to - 1].base })
    }
}

/// The file operations of a truncation that left `w` of `v`.
pub open spec fn truncate_ops(v: LogView, w: LogView) -> Seq<Op> {
    let t = w.segments.len() - 1;
    let kept = w.segments.last();
    remove_ops(v.segments, t + 1, v.segments.len() as int).push(
        Op::Truncate { base: kept.base, len: kept.size },
    ).push(Op::Reindex { base: kept.base, index: entries_bytes(kept.entries) })
}

/// The contents of one segment's files.
pub struct SegmentFile {
    pub base: u64,
    pub log: Vec<u8>,
    pub index: Option<Vec<u8>>,
}

/// What segment files hold.
pub struct FileView {
    pub base: nat,
    pub log: Seq<u8>,
    pub index: Option<Seq<u8>>,
}

impl View for SegmentFile {
    type V = FileView;

    open spec fn view(&self) -> FileView {
        FileView { base: self.base as nat, log: self.log@, index: opt_view(self.index) }
    }
}

pub open spec fn files_view(files: Seq<SegmentFile>) -> Seq<FileView> {
    files.map_values(|f: SegmentFile| f@)
}

/// A file is under 4 GiB, and the offsets in it can be counted.
pub open spec fn openable(f: FileView) -> bool {
    &&& f.base <= MAX_OFFSET
    &&& f.log.len() <= u32::MAX
}

impl SegmentFile {
    /// Whether these files can be part of a log that is opened.
    pub fn is_openable(&self) -> (r: bool)
        ensures
            r == openable(self@),
    {
        self.base <= MAX_OFFSET && self.log.len() as u64 <= u32::MAX as u64
    }
}

/// A log that is being opened: the segments before the newest, the newest, and
/// where the next segment has to start.
pub struct Opening {
    pub closed: Seq<SegmentView>,
    pub active: Option<SegmentView>,
    pub expected: Option<nat>,
}

pub open spec fn not_continuing(base: nat, expected: nat) -> Seq<char> {
    "segment base "@ + decimal(base) + " does not continue previous segment (expected "@ + decimal(
        expected,
    ) + ")"@
}

/// Segments with one more, which takes the place of one with the same base.
pub open spec fn put_segment(closed: Seq<SegmentView>, s: SegmentView) -> Seq<SegmentView> {
    if closed.len() > 0 && closed.last().base == s.base {
        closed.drop_last().push(s)
    } else {
        closed.push(s)
    }
}

/// What opening files one after the other gives. `last` is the newest base.
pub open spec fn open_files(files: Seq<FileView>, config: LogConfig, last: nat) -> std::result::Result<
    Opening,
    StorageFault,
>
    decreases files.len(),
{
    if files.len() == 0 {
        Ok(Opening { closed: Seq::empty(), active: None, expected: None })
    } else {
        match open_files(files.drop_last(), config, last) {
            Err(e) => Err(e),
            Ok(o) => {
                let f = files.last();
                let newest = f.base == last;
                match recovered(f.base, f.log, f.index, config, newest) {
                    Err(e) => Err(e),
                    Ok(s) => if o.expected is Some && o.expected->0 != f.base {
                        Err(StorageFault::InvalidLayout(not_continuing(f.base, o.expected->0)))
                    } else {
                        Ok(
                            Opening {
                                closed: if newest {
                                    o.closed
                                } else {
                                    put_segment(o.closed, s)
                                },
                                active: if newest {
                                    Some(s)
                                } else {
                                    o.active
                                },
                                expected: Some(s.next),
                            },
                        )
                    },
                }
            },
        }
    }
}

/// The log that files hold.
pub open spec fn opened(files: Seq<FileView>, config: LogConfig, now_ms: u64) -> std::result::Result<
    LogView,
    StorageFault,
> {
    if super::config_fault(config) is Some {
        Err(StorageFault::InvalidConfig(super::config_fault(config)->0))
    } else if files.len() == 0 {
        Ok(
            LogView {
                config,
                segments: seq![empty_segment(0)],
                durable: None,
                dirty: 0,
                last_flush_ms: now_ms,
            },
        )
    } else {
        match open_files(files, config, files.last().base) {
            Err(e) => Err(e),
            Ok(o) => Ok(
                LogView {
                    config,
                    segments: o.closed.push(o.active->0),
                    durable: before(o.active->0.next),
                    dirty: 0,
                    last_flush_ms: now_ms,
                },
            ),
        }
    }
}

/// Recovering the newest segment counts no more records than bytes.
proof fn lemma_newest(base: nat, log: Seq<u8>, index: Option<Seq<u8>>, config: LogConfig)
    ensures
        recovered(base, log, index, config, true) is Ok,
        ({
            let s = recovered(base, log, index, config, true)->Ok_0;
            &&& s.base == base
            &&& countable(s)
            &&& s.size <= log.len()
        }),
{
    let buf = log.skip(0);
    let found = scan(buf, config.max_record_bytes, base);
    lemma_scan_bounds(buf, config.max_record_bytes, base);
    lemma_advance_size(empty_segment(base), found.records, config.index_interval_bytes, true);
}

proof fn lemma_recovered_base(
    base: nat,
    log: Seq<u8>,
    index: Option<Seq<u8>>,
    config: LogConfig,
    newest: bool,
)
    requires
        recovered(base, log, index, config, newest) is Ok,
    ensures
        recovered(base, log, index, config, newest)->Ok_0.base == base,
{
    let (start, rebuild) = recovery_start(base, log.len(), index, newest);
    let found = scan(log.skip(start.size as int), config.max_record_bytes, start.next);
    lemma_advance_size(start, found.records, config.index_interval_bytes, rebuild);
}

/// The segment found for an offset in the log covers it.
pub proof fn lemma_segment_at(segs: Seq<SegmentView>, offset: nat)
    requires
        segs.len() > 0,
        chained(segs),
        segs[0].base <= offset,
    ensures
        ({
            let i = segment_at(segs, offset);
            &&& 0 <= i < segs.len()
            &&& segs[i].base <= offset
            &&& i + 1 < segs.len() ==> offset < segs[i].next
            &&& forall|j: int| i < j < segs.len() ==> segs[j].base > offset
        }),
    decreases segs.len(),
{
    if segs.last().base > offset {
        let head = segs.drop_last();
        assert(head[0] == segs[0]);
        lemma_segment_at(head, offset);
        let i = segment_at(segs, offset);
        assert(segs[i].next == segs[i + 1].base);
        assert forall|j: int| i < j < segs.len() implies segs[j].base > offset by {
            if j < head.len() {
                assert(head[j] == segs[j]);
            }
        }
    }
}

impl Log {
    pub open spec fn ok(self) -> bool {
        log_ok(self@)
    }

    /// Opens the log that segment files hold, which stand in the order of their
    /// bases. Returns the log and what is to be done to the files first.
    #[verifier::rlimit(60)]
    pub fn open(files: &Vec<SegmentFile>, config: LogConfig, now_ms: u64) -> (r: Result<
        (Log, Vec<FileOp>),
    >)
        requires
            forall|i: int|
                0 <= i < files@.len() ==> openable((#[trigger] files@[i])@),
            forall|i: int, j: int| 0 <= i <= j < files@.len() ==> files@[i].base <= files@[j].base,
        ensures
            match opened(files_view(files@), config, now_ms) {
                Ok(v) => r is Ok && r->Ok_0.0@ == v && r->Ok_0.0.ok() && ops_view(r->Ok_0.1@)
                    == open_ops(files_view(files@), config),
                Err(e) => r is Err && r->Err_0@ == e,
            },
    {
        config.validate()?;
        let mut ops: Vec<FileOp> = Vec::new();
        let mut segments: Vec<Segment> = Vec::new();
        let n: usize = files.len();
        if n == 0 {
            segments.push(Segment::create(0));
            ops.push(FileOp::Create { base: 0 });
            assert(segment_views(segments@) =~= seq![empty_segment(0)]);
            assert(ops_view(ops@) =~= seq![Op::Create { base: 0 }]);
            let log = Log {
                config,
                segments,
                durable_offset: None,
                dirty_bytes: 0,
                last_flush_ms: now_ms,
            };
            return Ok((log, ops));
        }
        let last: u64 = files[n - 1].base;
        let ghost all = files_view(files@);
        let mut active: Option<Segment> = None;
        let mut expected: Option<u64> = None;
        let mut i: usize = 0;
        assert(segment_views(segments@) =~= Seq::empty());
        assert(all.take(0) =~= Seq::empty());
        assert(ops_view(ops@) =~= Seq::empty());
        while i < n
            invariant
                n == files@.len(),
                n > 0,
                i <= n,
                config.valid(),
                all == files_view(files@),
                last == files@.last().base,
                forall|j: int|
                    0 <= j < files@.len() ==> openable((#[trigger] files@[j])@),
                forall|j: int, k: int|
                    0 <= j <= k < files@.len() ==> files@[j].base <= files@[k].base,
                open_files(all.take(i as int), config, last as nat) == Ok::<Opening, StorageFault>(
                    opening(segments@, active, expected),
                ),
                opening_ok(segments@, active, expected, config),
                i > 0 ==> expected is Some,
                i == 0 ==> expected is None && segments@.len() == 0 && active is None,
                i > 0 && files@[i - 1].base < last ==> active is None,
                i > 0 && files@[i - 1].base == last ==> active is Some && active->0@.base == last,
                i > 0 && active is None ==> segments@.len() > 0 && segments@.last()@.base
                    == files@[i - 1].base,
                ops_view(ops@) == reopen_ops(all.take(i as int), config, last as nat),
            decreases n - i,
        {
            let ghost prefix = all.take(i as int);
            let ghost longer = all.take(i + 1);
            let file: &SegmentFile = &files[i];
            let newest: bool = file.base == last;
            proof {
                assert(longer.drop_last() =~= prefix);
                assert(longer.last() == file@);
                assert(openable(file@));
                if i > 0 {
                    assert(files@[i - 1].base <= files@[i as int].base);
                }
            }
            let index: Option<&[u8]> = match &file.index {
                Some(b) => Some(b.as_slice()),
                None => None,
            };
            assert(file_view(index) == file@.index);
            let recovery: Recovery = match Segment::recover(
                file.base,
                file.log.as_slice(),
                index,
                &config,
                newest,
            ) {
                Ok(x) => x,
                Err(e) => {
                    proof {
                        lemma_open_error(all, config, last as nat, i as int);
                    }
                    return Err(e);
                },
            };
            let segment: Segment = recovery.segment;
            let ghost seg = segment@;
            proof {
                lemma_recovered_base(file@.base, file@.log, file@.index, config, newest);
                if newest {
                    lemma_newest(file@.base, file@.log, file@.index, config);
                }
            }
            if let Some(want) = expected {
                if file.base != want {
                    let mut text: String = "segment base ".to_owned();
                    push_decimal(&mut text, file.base);
                    text.append(" does not continue previous segment (expected ");
                    push_decimal(&mut text, want);
                    text.append(")");
                    proof {
                        lemma_open_error(all, config, last as nat, i as int);
                    }
                    return Err(StorageError::InvalidLayout(text));
                }
            }
            if recovery.rebuilt {
                ops.push(FileOp::Reindex { base: file.base, index: segment.index_bytes() });
            }
            if segment.size() < file.log.len() as u64 {
                ops.push(FileOp::Truncate { base: file.base, len: segment.size() });
            }
            assert(ops_view(ops@) =~= reopen_ops(longer, config, last as nat));
            expected = Some(segment.next_offset());
            let ghost closed_before = segment_views(segments@);
            if newest {
                active = Some(segment);
            } else {
                if segments.len() > 0 && segments[segments.len() - 1].base_offset() == file.base {
                    segments.pop();
                }
                segments.push(segment);
                assert(segment_views(segments@) =~= put_segment(closed_before, seg));
            }
            i = i + 1;
        }
        assert(all.take(n as int) =~= all);
        let newest: Segment = match active {
            Some(s) => s,
            None => {
                assert(false);
                Segment::create(0)
            },
        };
        let ghost closed = segment_views(segments@);
        let next: u64 = newest.next_offset();
        let durable_offset: Option<u64> = if next == 0 {
            None
        } else {
            Some(next - 1)
        };
        let ghost newest_view = newest@;
        segments.push(newest);
        assert(segment_views(segments@) =~= closed.push(newest_view));
        let log = Log { config, segments, durable_offset, dirty_bytes: 0, last_flush_ms: now_ms };
        Ok((log, ops))
    }
}

impl Log {
    /// The index of the last segment that starts at `offset` or before.
    fn find(&self, offset: u64) -> (i: usize)
        requires
            self.ok(),
            start_of(self@) <= offset,
        ensures
            i == segment_at(self@.segments, offset as nat),
            i < self@.segments.len(),
    {
        let mut n: usize = self.segments.len();
        let ghost segs = self@.segments;
        assert(segs.take(n as int) =~= segs);
        while n > 0 && self.segments[n - 1].base_offset() > offset
            invariant
                segs == self@.segments,
                n <= segs.len(),
                segs.len() > 0,
                segs[0].base <= offset,
                n >= 1,
                segment_at(segs, offset as nat) == segment_at(segs.take(n as int), offset as nat),
            decreases n,
        {
            assert(segs.take(n as int).drop_last() =~= segs.take(n - 1));
            assert(segs.take(n as int).last() == self.segments@[n - 1]@);
            n = n - 1;
        }
        assert(segs.take(n as int).last() == self.segments@[n - 1]@);
        n - 1
    }

    pub fn start_offset(&self) -> (r: u64)
        requires
            self.ok(),
        ensures
            r == start_of(self@),
    {
        self.segments[0].base_offset()
    }

    pub fn next_offset(&self) -> (r: u64)
        requires
            self.ok(),
        ensures
            r == next_of(self@),
    {
        self.segments[self.segments.len() - 1].next_offset()
    }

    pub fn durable_offset(&self) -> (r: Option<u64>)
        ensures
            r == self@.durable,
    {
        self.durable_offset
    }

    /// Whether only the operating system decides when records reach stable
    /// storage.
    pub fn never_flushes(&self) -> (r: bool)
        ensures
            r == (self@.config.fsync is Os),
    {
        match self.config.fsync {
            FsyncPolicy::Os => true,
            _ => false,
        }
    }

    /// How long the policy lets records wait for a flush, if it limits that.
    pub fn max_dirty_ms(&self) -> (r: Option<u64>)
        ensures
            r == (match self@.config.fsync {
                FsyncPolicy::Batch { max_ms, .. } => Some(max_ms),
                _ => None,
            }),
    {
        match self.config.fsync {
            FsyncPolicy::Batch { max_ms, .. } => Some(max_ms),
            _ => None,
        }
    }

    /// Leaves the time of a group commit to the log's owner: from now on only
    /// its size makes an append flush.
    pub fn leave_time(&mut self)
        requires
            old(self).ok(),
        ensures
            final(self).ok(),
            final(self)@ == untimed(old(self)@),
    {
        if let FsyncPolicy::Batch { max_bytes, .. } = self.config.fsync {
            self.config.fsync = FsyncPolicy::Batch { max_bytes, max_ms: u64::MAX };
        }
    }

    pub fn segment_count(&self) -> (r: usize)
        ensures
            r == self@.segments.len(),
    {
        self.segments.len()
    }

    /// Forces everything appended so far to stable storage, with the operation
    /// that it returns; returns the new durable offset.
    pub fn flush(&mut self, now_ms: u64) -> (r: (Option<u64>, FileOp))
        requires
            old(self).ok(),
        ensures
            final(self).ok(),
            final(self)@ == flushed(old(self)@, now_ms),
            r.0 == final(self)@.durable,
            r.1@ == (Op::Sync { base: old(self)@.segments.last().base }),
    {
        let next: u64 = self.next_offset();
        let base: u64 = self.segments[self.segments.len() - 1].base_offset();
        self.durable_offset = if next == 0 {
            None
        } else {
            Some(next - 1)
        };
        self.dirty_bytes = 0;
        self.last_flush_ms = now_ms;
        (self.durable_offset, FileOp::Sync { base })
    }

    /// Rolling fsyncs the outgoing segment first: recovery trusts rolled
    /// segments without a torn-tail scan, so they must be durable before the
    /// new segment exists.
    fn roll(&mut self, now_ms: u64) -> (ops: Vec<FileOp>)
        requires
            old(self).ok(),
            old(self)@.segments.last().size > 0,
        ensures
            final(self).ok(),
            final(self)@ == rolled(old(self)@, now_ms),
            ops_view(ops@) == seq![
                Op::Sync { base: old(self)@.segments.last().base },
                Op::Create { base: next_of(old(self)@) },
            ],
    {
        let (_, sync): (Option<u64>, FileOp) = self.flush(now_ms);
        let next_base: u64 = self.next_offset();
        let ghost mid = self@;
        self.segments.push(Segment::create(next_base));
        assert(self@.segments =~= mid.segments.push(empty_segment(next_base as nat)));
        let mut ops: Vec<FileOp> = Vec::new();
        ops.push(sync);
        ops.push(FileOp::Create { base: next_base });
        assert(ops_view(ops@) =~= seq![
            Op::Sync { base: old(self)@.segments.last().base },
            Op::Create { base: next_of(old(self)@) },
        ]);
        ops
    }

    /// Appends a record of this log's own, at its next offset.
    pub fn append(
        &mut self,
        key: Option<Vec<u8>>,
        value: Vec<u8>,
        timestamp_ms: i64,
        now_ms: u64,
    ) -> (r: Result<(AppendInfo, Vec<FileOp>)>)
        requires
            old(self).ok(),
            next_of(old(self)@) < MAX_OFFSET,
            own_record(old(self)@, key, value, timestamp_ms) matches rec && encoded_size(rec)
                <= usize::MAX && old(self)@.dirty + encoded_size(rec) <= u64::MAX,
        ensures
            append_outcome(
                *old(self),
                *final(self),
                own_record(old(self)@, key, value, timestamp_ms),
                now_ms,
                r,
            ),
    {
        let record: Record = Record { offset: self.next_offset(), timestamp_ms, key, value };
        assert(record@ == own_record(self@, key, value, timestamp_ms));
        self.append_record(record, now_ms)
    }

    /// Appends a record fetched from a leader, preserving its offset and
    /// timestamp. The offset must continue this log exactly — replication is
    /// not allowed to create gaps or rewrites.
    pub fn append_replicated(&mut self, record: Record, now_ms: u64) -> (r: Result<
        (AppendInfo, Vec<FileOp>),
    >)
        requires
            old(self).ok(),
            next_of(old(self)@) < MAX_OFFSET,
            encoded_size(record@) <= usize::MAX,
            old(self)@.dirty + encoded_size(record@) <= u64::MAX,
        ensures
            if record.offset != next_of(old(self)@) {
                &&& r is Err
                &&& r->Err_0@ == StorageFault::InvalidLayout(
                    replicated_gap(record.offset as nat, next_of(old(self)@)),
                )
                &&& final(self)@ == old(self)@
                &&& final(self).ok()
            } else {
                append_outcome(*old(self), *final(self), record@, now_ms, r)
            },
    {
        let next: u64 = self.next_offset();
        if record.offset != next {
            let mut text: String = "replicated append at offset ".to_owned();
            push_decimal(&mut text, record.offset);
            text.append(" but log ends at ");
            push_decimal(&mut text, next);
            return Err(StorageError::InvalidLayout(text));
        }
        self.append_record(record, now_ms)
    }

    fn append_record(&mut self, record: Record, now_ms: u64) -> (r: Result<
        (AppendInfo, Vec<FileOp>),
    >)
        requires
            old(self).ok(),
            record.offset == next_of(old(self)@),
            next_of(old(self)@) < MAX_OFFSET,
            encoded_size(record@) <= usize::MAX,
            old(self)@.dirty + encoded_size(record@) <= u64::MAX,
        ensures
            append_outcome(*old(self), *final(self), record@, now_ms, r),
    {
        let offset: u64 = record.offset;
        let encoded_len: u64 = record.encoded_len() as u64;
        if encoded_len > self.config.max_record_bytes as u64 {
            return Err(StorageError::RecordTooLarge(encoded_len));
        }
        let ghost v = self@;
        let size: u64 = self.segments[self.segments.len() - 1].size();
        let mut ops: Vec<FileOp> = Vec::new();
        assert(ops_view(ops@) =~= Seq::empty());
        if size > 0 && size + encoded_len > self.config.max_segment_bytes {
            ops = self.roll(now_ms);
        }
        let ghost room = self@;
        assert(room == roomy(v, record@, now_ms));
        let mut active: Segment = match self.segments.pop() {
            Some(s) => s,
            None => {
                assert(false);
                Segment::create(0)
            },
        };
        let ghost closed = segment_views(self.segments@);
        assert(closed =~= room.segments.drop_last());
        let base: u64 = active.base_offset();
        let w: Written = active.append(&record, &self.config);
        let ghost act = active@;
        self.segments.push(active);
        assert(segment_views(self.segments@) =~= closed.push(act));
        self.dirty_bytes = self.dirty_bytes + encoded_len;
        assert(self@ == written(room, record@));
        assert(self.ok());
        ops.push(FileOp::Append { base, log: w.log, index: w.index });
        let flush_now: bool = match self.config.fsync {
            FsyncPolicy::Always => true,
            FsyncPolicy::Batch { max_bytes, max_ms } => self.dirty_bytes >= max_bytes
                || now_ms.saturating_sub(self.last_flush_ms) >= max_ms,
            FsyncPolicy::Os => false,
        };
        if flush_now {
            let (_, sync): (Option<u64>, FileOp) = self.flush(now_ms);
            ops.push(sync);
        }
        proof {
            let w = written(room, record@);
            assert(flush_now == must_flush(w.config.fsync, w.dirty, now_ms, w.last_flush_ms));
            assert(base == room.segments.last().base);
            assert(ops_view(ops@) =~= append_ops(v, record@, now_ms));
        }
        Ok((AppendInfo { offset, durable_offset: self.durable_offset }, ops))
    }

    /// The bytes that a read at `offset` needs; none where there is nothing to
    /// read.
    pub fn read_span(&self, offset: u64) -> (r: Option<ReadSpan>)
        requires
            self.ok(),
        ensures
            if offset < start_of(self@) || offset >= next_of(self@) {
                r is None
            } else {
                let s = self@.segments[segment_at(self@.segments, offset as nat)];
                let at = read_position(s, offset as nat);
                r matches Some(x) && x.base == s.base && x.position == at && (at <= s.size
                    ==> x.len == s.size - at)
            },
    {
        if offset < self.start_offset() || offset >= self.next_offset() {
            return None;
        }
        let i: usize = self.find(offset);
        proof {
            lemma_segment_at(self@.segments, offset as nat);
            assert(segment_ok(self@.segments[i as int]));
        }
        let segment: &Segment = &self.segments[i];
        assert(segment@ == self@.segments[i as int]);
        let position: u64 = segment.read_start(offset);
        let size: u64 = segment.size();
        let len: u64 = if position <= size {
            size - position
        } else {
            0
        };
        Some(ReadSpan { base: segment.base_offset(), position, len })
    }

    /// Reads records starting at `offset`, up to roughly `max_bytes` (always
    /// at least one if any exist). A read never crosses a segment boundary;
    /// callers continue from the next offset, consumer-style. `buf` holds the
    /// bytes that `read_span` asks for.
    pub fn read(&self, offset: u64, max_bytes: u64, buf: &[u8]) -> (r: Result<Vec<Record>>)
        requires
            self.ok(),
            buf@.len() <= u32::MAX,
        ensures
            match read_result(self@, offset, max_bytes, buf@) {
                Ok(rs) => r is Ok && views(r->Ok_0@) == rs,
                Err(e) => r is Err && r->Err_0@ == e,
            },
    {
        if offset < self.start_offset() || offset > self.next_offset() {
            return Err(StorageError::OffsetOutOfRange(offset));
        }
        if offset == self.next_offset() {
            let none: Vec<Record> = Vec::new();
            assert(views(none@) =~= Seq::empty());
            return Ok(none);
        }
        let i: usize = self.find(offset);
        proof {
            lemma_segment_at(self@.segments, offset as nat);
            assert(segment_ok(self@.segments[i as int]));
        }
        let segment: &Segment = &self.segments[i];
        assert(segment@ == self@.segments[i as int]);
        segment.read_from(offset, max_bytes, buf, &self.config)
    }

    /// The bytes that a truncation to `new_next` needs: all of one segment's log
    /// file; none where there is nothing to cut or `new_next` is out of range.
    pub fn truncation_span(&self, new_next: u64) -> (r: Option<ReadSpan>)
        requires
            self.ok(),
        ensures
            if new_next >= next_of(self@) || new_next < start_of(self@) {
                r is None
            } else {
                let s = self@.segments[truncation_segment(self@, new_next as nat)];
                r matches Some(x) && x.base == s.base && x.position == 0 && x.len == s.size
            },
    {
        if new_next >= self.next_offset() || new_next < self.start_offset() {
            return None;
        }
        let t: usize = if new_next == self.start_offset() {
            0
        } else {
            self.find(new_next - 1)
        };
        assert(self.segments@[t as int]@ == self@.segments[t as int]);
        Some(
            ReadSpan {
                base: self.segments[t].base_offset(),
                position: 0,
                len: self.segments[t].size(),
            },
        )
    }

    /// Whether the counters of the log have room for `n` more records of `size`
    /// bytes.
    pub fn has_room(&self, n: u64, size: u64) -> (r: bool)
        requires
            self.ok(),
        ensures
            r == (next_of(self@) + n <= MAX_OFFSET && size <= usize::MAX && self@.dirty + size
                <= u64::MAX),
    {
        let next: u64 = self.next_offset();
        next <= MAX_OFFSET && n <= MAX_OFFSET - next && size <= usize::MAX as u64
            && self.dirty_bytes <= u64::MAX - size
    }

    /// Whether the log is far enough from the last offsets to be cut.
    pub fn can_truncate(&self) -> (r: bool)
        requires
            self.ok(),
        ensures
            r == (next_of(self@) <= MAX_OFFSET),
    {
        self.next_offset() <= MAX_OFFSET
    }

    /// Truncates the log so that `new_next` becomes the next offset (records
    /// at `new_next` and beyond are removed). Tail-only by construction: this
    /// exists for a follower reconciling its divergent suffix with a new
    /// leader, never for editing history.
    ///
    /// `log` holds the bytes that `truncation_span` asks for.
    pub fn truncate_suffix(&mut self, new_next: u64, log: &[u8]) -> (r: Result<Vec<FileOp>>)
        requires
            old(self).ok(),
            next_of(old(self)@) <= MAX_OFFSET,
            start_of(old(self)@) <= new_next < next_of(old(self)@) ==> log@.len() == old(
                self,
            )@.segments[truncation_segment(old(self)@, new_next as nat)].size,
        ensures
            final(self).ok(),
            match truncated(old(self)@, new_next, log@) {
                Ok(w) => r is Ok && final(self)@ == w && ops_view(r->Ok_0@) == (if new_next
                    >= next_of(old(self)@) {
                    Seq::empty()
                } else {
                    truncate_ops(old(self)@, w)
                }),
                Err(e) => r is Err && r->Err_0@ == e && final(self)@ == old(self)@,
            },
    {
        let mut ops: Vec<FileOp> = Vec::new();
        assert(ops_view(ops@) =~= Seq::empty());
        if new_next >= self.next_offset() {
            return Ok(ops);
        }
        if new_next < self.start_offset() {
            return Err(StorageError::OffsetOutOfRange(new_next));
        }
        let ghost v = self@;
        let t: usize = if new_next == self.start_offset() {
            0
        } else {
            self.find(new_next - 1)
        };
        let ghost s = v.segments[t as int];
        proof {
            if t > 0 || new_next != start_of(v) {
                lemma_segment_at(v.segments, (new_next - 1) as nat);
            }
            assert(segment_ok(s));
            assert(s.base <= new_next <= s.next);
            lemma_chain_bound(v.segments, t as int);
        }
        let segment: &Segment = &self.segments[t];
        assert(segment@ == s);
        let base: u64 = segment.base_offset();
        let start: u64 = segment.read_start(new_next);
        proof {
            lemma_read_position(s, new_next as nat);
        }
        let tail: &[u8] = slice_subrange(log, start as usize, log.len());
        assert(tail@ =~= log@.skip(start as int));
        let position: u64 = segment.position_of(new_next, tail, &self.config)?;
        let kept: &[u8] = slice_subrange(log, 0, position as usize);
        assert(kept@ =~= log@.take(position as int));
        let recovery: Recovery = Segment::recover(base, kept, None, &self.config, true)?;
        let rebuilt: Segment = recovery.segment;
        proof {
            lemma_newest(s.base, log@.take(position as int), None, self.config);
        }
        let ghost kept_view = rebuilt@;
        let n: usize = self.segments.len();
        let mut i: usize = t + 1;
        while i < n
            invariant
                self@ == v,
                n == v.segments.len(),
                t < i <= n,
                ops_view(ops@) == remove_ops(v.segments, t + 1, i as int),
            decreases n - i,
        {
            let ghost so_far = ops_view(ops@);
            assert(self.segments@[i as int]@ == v.segments[i as int]);
            ops.push(FileOp::Remove { base: self.segments[i].base_offset() });
            assert(ops_view(ops@) =~= so_far.push(Op::Remove { base: v.segments[i as int].base }));
            i = i + 1;
        }
        ops.push(FileOp::Truncate { base, len: rebuilt.size() });
        ops.push(FileOp::Reindex { base, index: rebuilt.index_bytes() });
        self.segments.truncate(t);
        self.segments.push(rebuilt);
        assert(segment_views(self.segments@) =~= v.segments.take(t as int).push(kept_view));
        self.durable_offset = match self.durable_offset {
            Some(durable) => if new_next == 0 {
                None
            } else if durable <= new_next - 1 {
                Some(durable)
            } else {
                Some(new_next - 1)
            },
            None => None,
        };
        assert(ops_view(ops@) =~= truncate_ops(v, self@));
        Ok(ops)
    }
}

/// The record that an append of a key and a value makes.
pub open spec fn own_record(
    v: LogView,
    key: Option<Vec<u8>>,
    value: Vec<u8>,
    timestamp_ms: i64,
) -> RecordView {
    RecordView { offset: next_of(v) as u64, timestamp_ms, key: opt_view(key), value: value@ }
}

pub open spec fn replicated_gap(offset: nat, next: nat) -> Seq<char> {
    "replicated append at offset "@ + decimal(offset) + " but log ends at "@ + decimal(next)
}

/// What an append does: a record that is too large changes nothing.
pub open spec fn append_outcome(
    before: Log,
    after: Log,
    r: RecordView,
    now_ms: u64,
    result: Result<(AppendInfo, Vec<FileOp>)>,
) -> bool {
    &&& after.ok()
    &&& if encoded_size(r) > before@.config.max_record_bytes {
        &&& result is Err
        &&& result->Err_0@ == StorageFault::RecordTooLarge(encoded_size(r) as u64)
        &&& after@ == before@
    } else {
        &&& result is Ok
        &&& after@ == appended(before@, r, now_ms)
        &&& result->Ok_0.0.offset == r.offset
        &&& result->Ok_0.0.durable_offset == after@.durable
        &&& ops_view(result->Ok_0.1@) == append_ops(before@, r, now_ms)
    }
}

/// Segments in a chain end no later than the last of them.
proof fn lemma_chain_bound(segs: Seq<SegmentView>, i: int)
    requires
        chained(segs),
        0 <= i < segs.len(),
        forall|k: int| 0 <= k < segs.len() ==> segment_ok(#[trigger] segs[k]),
    ensures
        segs[i].next <= segs.last().next,
        segs[i].base <= segs.last().base,
    decreases segs.len() - i,
{
    if i + 1 < segs.len() {
        lemma_chain_bound(segs, i + 1);
        assert(segs[i].next == segs[i + 1].base);
        assert(segment_ok(segs[i + 1]));
    }
}

/// A read starts inside the segment's file.
proof fn lemma_read_position(s: SegmentView, offset: nat)
    requires
        segment_ok(s),
    ensures
        read_position(s, offset) <= s.size,
{
    lemma_floor_bound(s.entries, (offset - s.base) as u32);
    if s.entries.len() > 0 {
        assert(s.entries.last() == s.entries[s.entries.len() - 1]);
    }
}

proof fn lemma_floor_bound(es: Seq<(u32, u32)>, target: u32)
    requires
        super::index::rising(es),
    ensures
        super::index::floor_entry(es, target) matches Some(e) ==> e.1 <= es.last().1,
    decreases es.len(),
{
    if es.len() > 0 && es.last().0 > target {
        let head = es.drop_last();
        lemma_floor_bound(head, target);
        if head.len() > 0 {
            assert(head.last() == es[es.len() - 2]);
            assert(es.last() == es[es.len() - 1]);
        }
    }
}

pub open spec fn opening(
    segments: Seq<Segment>,
    active: Option<Segment>,
    expected: Option<u64>,
) -> Opening {
    Opening {
        closed: segment_views(segments),
        active: match active {
            Some(s) => Some(s@),
            None => None,
        },
        expected: match expected {
            Some(e) => Some(e as nat),
            None => None,
        },
    }
}

/// What holds of the segments opened so far.
pub open spec fn opening_ok(
    segments: Seq<Segment>,
    active: Option<Segment>,
    expected: Option<u64>,
    config: LogConfig,
) -> bool {
    let closed = segment_views(segments);
    &&& chained(closed)
    &&& forall|i: int| 0 <= i < closed.len() ==> segment_ok(#[trigger] closed[i])
    &&& active is Some ==> segment_ok(active->0@) && countable(active->0@) && expected
        == Some(active->0@.next as u64)
    &&& active is Some && closed.len() > 0 ==> closed.last().next == active->0@.base
        && closed.last().base < active->0@.base
    &&& active is None && closed.len() > 0 ==> expected == Some(closed.last().next as u64)
}

/// What opening a segment does to its files.
pub open spec fn segment_ops(f: FileView, config: LogConfig, newest: bool) -> Seq<Op> {
    let s = recovered(f.base, f.log, f.index, config, newest)->Ok_0;
    let first = if recovery_start(f.base, f.log.len(), f.index, newest).1 {
        seq![Op::Reindex { base: f.base, index: entries_bytes(s.entries) }]
    } else {
        Seq::empty()
    };
    if s.size < f.log.len() {
        first.push(Op::Truncate { base: f.base, len: s.size })
    } else {
        first
    }
}

pub open spec fn reopen_ops(files: Seq<FileView>, config: LogConfig, last: nat) -> Seq<Op>
    decreases files.len(),
{
    if files.len() == 0 {
        Seq::empty()
    } else {
        reopen_ops(files.drop_last(), config, last) + segment_ops(
            files.last(),
            config,
            files.last().base == last,
        )
    }
}

/// The file operations of opening a log.
pub open spec fn open_ops(files: Seq<FileView>, config: LogConfig) -> Seq<Op> {
    if files.len() == 0 {
        seq![Op::Create { base: 0 }]
    } else {
        reopen_ops(files, config, files.last().base)
    }
}

/// An error in the first files is the error of all.
proof fn lemma_open_error(files: Seq<FileView>, config: LogConfig, last: nat, i: int)
    requires
        0 <= i < files.len(),
        open_files(files.take(i + 1), config, last) is Err,
    ensures
        open_files(files, config, last) == open_files(files.take(i + 1), config, last),
    decreases files.len(),
{
    if i + 1 == files.len() {
        assert(files.take(i + 1) =~= files);
    } else {
        assert(files.drop_last().take(i + 1) =~= files.take(i + 1));
        lemma_open_error(files.drop_last(), config, last, i);
    }
}

/// The part of a file name before `.log`, if it ends so.
pub open spec fn log_stem(name: Seq<char>) -> Option<Seq<char>> {
    let suffix = ".log"@;
    let n = name.len() - suffix.len();
    if n >= 0 && name.skip(n) == suffix {
        Some(name.take(n))
    } else {
        None
    }
}

pub open spec fn unparseable(name: Seq<char>) -> Seq<char> {
    "unparseable segment file name "@ + name
}

/// The bases that file names name, in the order of the names; the first name
/// that ends in `.log` behind something other than a number is an error.
pub open spec fn bases_in(names: Seq<Seq<char>>) -> std::result::Result<Seq<u64>, Seq<char>>
    decreases names.len(),
{
    if names.len() == 0 {
        Ok(Seq::empty())
    } else {
        match bases_in(names.drop_last()) {
            Err(text) => Err(text),
            Ok(bases) => match log_stem(names.last()) {
                None => Ok(bases),
                Some(stem) => match parse_number(stem, u64::MAX as nat) {
                    Ok(n) => Ok(bases.push(n as u64)),
                    Err(_) => Err(unparseable(names.last())),
                },
            },
        }
    }
}

proof fn lemma_bases_error(names: Seq<Seq<char>>, i: int)
    requires
        0 <= i < names.len(),
        bases_in(names.take(i + 1)) is Err,
    ensures
        bases_in(names) == bases_in(names.take(i + 1)),
    decreases names.len(),
{
    if i + 1 == names.len() {
        assert(names.take(i + 1) =~= names);
    } else {
        assert(names.drop_last().take(i + 1) =~= names.take(i + 1));
        lemma_bases_error(names.drop_last(), i);
    }
}

/// The bases of the segments whose log files are among `names`, in order.
pub fn segment_bases(names: &Vec<String>) -> (r: Result<Vec<u64>>)
    ensures
        match bases_in(texts(names@)) {
            Ok(bases) => r is Ok && ascending(r->Ok_0@) && r->Ok_0@.to_multiset()
                == bases.to_multiset(),
            Err(text) => r is Err && r->Err_0@ == StorageFault::InvalidLayout(text),
        },
{
    let mut bases: Vec<u64> = Vec::new();
    let suffix: Vec<char> = chars_of(".log");
    let ghost all = texts(names@);
    let mut i: usize = 0;
    assert(all.take(0) =~= Seq::empty());
    while i < names.len()
        invariant
            i <= names@.len(),
            all == texts(names@),
            suffix@ == ".log"@,
            bases_in(all.take(i as int)) == Ok::<Seq<u64>, Seq<char>>(bases@),
        decreases names@.len() - i,
    {
        let name: Vec<char> = chars_of(names[i].as_str());
        let chars: &[char] = name.as_slice();
        proof {
            assert(all.take(i + 1).drop_last() =~= all.take(i as int));
            assert(all.take(i + 1).last() == chars@);
        }
        if chars.len() >= suffix.len() {
            let n: usize = chars.len() - suffix.len();
            let tail: &[char] = slice_subrange(chars, n, chars.len());
            assert(tail@ =~= chars@.skip(n as int));
            if same_chars(tail, suffix.as_slice()) {
                let stem: &[char] = slice_subrange(chars, 0, n);
                assert(stem@ =~= chars@.take(n as int));
                match parse_uint(stem, u64::MAX) {
                    Ok(base) => {
                        bases.push(base);
                    },
                    Err(_) => {
                        let mut text: String = "unparseable segment file name ".to_owned();
                        text.append(names[i].as_str());
                        proof {
                            lemma_bases_error(all, i as int);
                        }
                        return Err(StorageError::InvalidLayout(text));
                    },
                }
            }
        }
        i = i + 1;
    }
    assert(all.take(i as int) =~= all);
    Ok(sort_numbers(&bases))
}

} // verus!
