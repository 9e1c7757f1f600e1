//! One segment of a log: a run of records in one file, with its index.

use super::index::{entry_bytes, file_view, floor_entry, loaded, rising, SparseIndex};
use super::record::{
    decoding, encoded_size, encoding, lemma_body_len, DecodeOutcome, Found, Record, RecordView,
};
use super::scan::{behind, lemma_consumed, lemma_nothing_done, lemma_scan_step, scan, Scan, Stop};
use super::{LogConfig, Result, StorageError, StorageFault};
use crate::text::{decimal, padded, push_decimal, push_padded};
use vstd::prelude::*;
use vstd::slice::*;
use vstd::string::*;

verus! {

/// The bookkeeping of one segment. Its records are in a file.
pub struct Segment {
    base_offset: u64,
    index: SparseIndex,
    next_offset: u64,
    size: u64,
    bytes_since_index: u64,
}

/// What is known of a segment.
pub struct SegmentView {
    pub base: nat,
    pub entries: Seq<(u32, u32)>,
    pub next: nat,
    pub size: nat,
    pub since: nat,
}

impl View for Segment {
    type V = SegmentView;

    closed spec fn view(&self) -> SegmentView {
        SegmentView {
            base: self.base_offset as nat,
            entries: self.index@,
            next: self.next_offset as nat,
            size: self.size as nat,
            since: self.bytes_since_index as nat,
        }
    }
}

/// The file name of a segment's records.
pub open spec fn log_name(base: nat) -> Seq<char> {
    padded(base, 20) + ".log"@
}

/// The file name of a segment's index.
pub open spec fn index_name(base: nat) -> Seq<char> {
    padded(base, 20) + ".index"@
}

/// The file name of a segment's records, in the log's directory.
pub fn log_path(base_offset: u64) -> (name: String)
    ensures
        name@ == log_name(base_offset as nat),
{
    let mut name: String = String::new();
    push_padded(&mut name, base_offset, 20);
    name.append(".log");
    assert(name@ =~= log_name(base_offset as nat));
    name
}

/// The file name of a segment's index, in the log's directory.
pub fn index_path(base_offset: u64) -> (name: String)
    ensures
        name@ == index_name(base_offset as nat),
{
    let mut name: String = String::new();
    push_padded(&mut name, base_offset, 20);
    name.append(".index");
    assert(name@ =~= index_name(base_offset as nat));
    name
}

/// A segment without records.
pub open spec fn empty_segment(base: nat) -> SegmentView {
    SegmentView { base, entries: Seq::empty(), next: base, size: 0, since: 0 }
}

/// The low 32 bits of a number.
pub open spec fn low_bits(n: int) -> u32 {
    (n % 0x1_0000_0000) as u32
}

/// A segment with one record more: the index notes the record first where
/// `interval` bytes have gone by since its last entry.
pub open spec fn advance(s: SegmentView, r: RecordView, interval: u64, indexing: bool) -> SegmentView {
    let mark = indexing && s.since >= interval;
    SegmentView {
        base: s.base,
        entries: if mark {
            s.entries.push((low_bits(s.next - s.base), low_bits(s.size as int)))
        } else {
            s.entries
        },
        next: s.next + 1,
        size: s.size + encoded_size(r),
        since: (if mark {
            0
        } else {
            s.since
        }) + encoded_size(r),
    }
}

/// A segment with many records more.
pub open spec fn advance_all(
    s: SegmentView,
    rs: Seq<RecordView>,
    interval: u64,
    indexing: bool,
) -> SegmentView
    decreases rs.len(),
{
    if rs.len() == 0 {
        s
    } else {
        advance(advance_all(s, rs.drop_last(), interval, indexing), rs.last(), interval, indexing)
    }
}

/// The bookkeeping is consistent, and its positions fit the index.
pub open spec fn segment_ok(s: SegmentView) -> bool {
    &&& s.base <= s.next <= u64::MAX
    &&& s.size <= u32::MAX
    &&& s.since <= s.size
    &&& s.next - s.base <= u32::MAX
    &&& rising(s.entries)
    &&& s.entries.len() > 0 ==> s.entries.last().0 <= s.next - s.base && s.entries.last().1
        <= s.size
    &&& s.entries.len() > 0 && s.since > 0 ==> s.entries.last().0 < s.next - s.base
        && s.entries.last().1 < s.size
}

/// The entries of an index file that can belong to a log file of `len` bytes:
/// the last one points into the file, and leaves the records before it the 32
/// bytes that each of them takes at least.
pub open spec fn usable(index: Option<Seq<u8>>, len: nat) -> Option<Seq<(u32, u32)>> {
    match loaded(index) {
        Some(es) => if es.len() == 0 || 32 * es.last().0 <= es.last().1 <= len {
            Some(es)
        } else {
            None
        },
        None => None,
    }
}

/// Where the scan of a segment with a log file of `len` bytes starts, and
/// whether its index is built anew: at the last entry of a rolled segment's
/// index, else at the front.
pub open spec fn recovery_start(
    base: nat,
    len: nat,
    index: Option<Seq<u8>>,
    truncate_torn_tail: bool,
) -> (SegmentView, bool) {
    match usable(index, len) {
        Some(es) => if truncate_torn_tail {
            (empty_segment(base), true)
        } else if es.len() == 0 {
            (empty_segment(base), false)
        } else {
            (
                SegmentView {
                    base,
                    entries: es,
                    next: base + es.last().0 as nat,
                    size: es.last().1 as nat,
                    since: 0,
                },
                false,
            )
        },
        None => (empty_segment(base), true),
    }
}

pub open spec fn discontinuity(expected: nat) -> Seq<char> {
    "offset discontinuity: expected "@ + decimal(expected)
}

/// What a scan that started from `start` makes of a segment: the segment with
/// the records found, or the error that the scan ran into. A tail that is torn,
/// bad or no continuation is an error except where it may be cut off.
pub open spec fn recovery(
    start: SegmentView,
    found: Scan,
    interval: u64,
    rebuild: bool,
    truncate_torn_tail: bool,
) -> std::result::Result<SegmentView, StorageFault> {
    let s = advance_all(start, found.records, interval, rebuild);
    match found.stop {
        Stop::Clean => Ok(s),
        Stop::Gap(offset) => if truncate_torn_tail {
            Ok(s)
        } else {
            Err(
                StorageFault::Corrupt {
                    offset,
                    position: s.size as u64,
                    reason: discontinuity(s.next),
                },
            )
        },
        Stop::Torn => if truncate_torn_tail {
            Ok(s)
        } else {
            Err(
                StorageFault::Corrupt {
                    offset: s.next as u64,
                    position: s.size as u64,
                    reason: "incomplete record in rolled segment"@,
                },
            )
        },
        Stop::Bad(reason) => if truncate_torn_tail {
            Ok(s)
        } else {
            Err(
                StorageFault::Corrupt { offset: s.next as u64, position: s.size as u64, reason },
            )
        },
    }
}

/// What recovering a segment from its files gives.
pub open spec fn recovered(
    base: nat,
    log: Seq<u8>,
    index: Option<Seq<u8>>,
    config: LogConfig,
    truncate_torn_tail: bool,
) -> std::result::Result<SegmentView, StorageFault> {
    let (start, rebuild) = recovery_start(base, log.len(), index, truncate_torn_tail);
    recovery(
        start,
        scan(log.skip(start.size as int), config.max_record_bytes, start.next),
        config.index_interval_bytes,
        rebuild,
        truncate_torn_tail,
    )
}

/// A recovered segment, and whether its index was built anew. The file keeps
/// as many bytes as the segment's size says.
pub struct Recovery {
    pub segment: Segment,
    pub rebuilt: bool,
}

/// The bytes that an append adds to a segment's two files.
pub struct Written {
    pub log: Vec<u8>,
    pub index: Vec<u8>,
}

/// Reading records at `offset` and later from `buf`, which stands at position
/// `at` of the file: at least one, and no more than `max_bytes` hold.
pub open spec fn collect(
    buf: Seq<u8>,
    at: nat,
    offset: u64,
    max_bytes: u64,
    taken: nat,
    any: bool,
    max: u32,
) -> std::result::Result<Seq<RecordView>, (nat, Seq<char>)>
    decreases buf.len(),
{
    match decoding(buf, max) {
        Found::Incomplete => Ok(Seq::empty()),
        Found::Corrupt(reason) => Err((at, reason)),
        Found::Record { record, consumed } => if !(0 < consumed <= buf.len()) {
            Ok(Seq::empty())
        } else if record.offset < offset {
            collect(
                buf.skip(consumed as int),
                at + consumed,
                offset,
                max_bytes,
                taken,
                any,
                max,
            )
        } else if any && taken + consumed > max_bytes {
            Ok(Seq::empty())
        } else if taken + consumed >= max_bytes {
            Ok(seq![record])
        } else {
            match collect(
                buf.skip(consumed as int),
                at + consumed,
                offset,
                max_bytes,
                taken + consumed,
                true,
                max,
            ) {
                Ok(rs) => Ok(seq![record] + rs),
                Err(e) => Err(e),
            }
        },
    }
}

/// A reading with records in front of it.
pub open spec fn collected(
    done: Seq<RecordView>,
    r: std::result::Result<Seq<RecordView>, (nat, Seq<char>)>,
) -> std::result::Result<Seq<RecordView>, (nat, Seq<char>)> {
    match r {
        Ok(rs) => Ok(done + rs),
        Err(e) => Err(e),
    }
}

/// The position of the first record at `offset` or later in `buf`, which stands
/// at position `at` of the file.
pub open spec fn locate(buf: Seq<u8>, at: nat, offset: u64, max: u32) -> std::result::Result<
    nat,
    (nat, Seq<char>),
>
    decreases buf.len(),
{
    match decoding(buf, max) {
        Found::Incomplete => Ok(at),
        Found::Corrupt(reason) => Err((at, reason)),
        Found::Record { record, consumed } => if record.offset < offset && 0 < consumed
            <= buf.len() {
            locate(buf.skip(consumed as int), at + consumed, offset, max)
        } else {
            Ok(at)
        },
    }
}

/// Where a segment's records are read from to reach an offset: at the nearest
/// index entry at or before it.
pub open spec fn read_position(s: SegmentView, offset: nat) -> nat {
    match floor_entry(s.entries, (offset - s.base) as u32) {
        Some(e) => e.1 as nat,
        None => 0,
    }
}

/// The records of a view of each.
pub open spec fn views(rs: Seq<Record>) -> Seq<RecordView> {
    rs.map_values(|r: Record| r@)
}

pub proof fn lemma_advance_all_push(
    s: SegmentView,
    rs: Seq<RecordView>,
    r: RecordView,
    interval: u64,
    indexing: bool,
)
    ensures
        advance_all(s, rs.push(r), interval, indexing) == advance(
            advance_all(s, rs, interval, indexing),
            r,
            interval,
            indexing,
        ),
{
    assert(rs.push(r).drop_last() =~= rs);
}

/// An append keeps the bookkeeping consistent, while positions fit the index.
pub proof fn lemma_advance_ok(s: SegmentView, r: RecordView, interval: u64, indexing: bool)
    requires
        segment_ok(s),
        s.next < u64::MAX,
        s.next - s.base < u32::MAX,
        s.size + encoded_size(r) <= u32::MAX,
        interval > 0,
    ensures
        segment_ok(advance(s, r, interval, indexing)),
{
}

impl Segment {
    pub open spec fn ok(self) -> bool {
        segment_ok(self@)
    }

    /// A new segment, with an empty log file and an empty index file.
    pub fn create(base_offset: u64) -> (r: Self)
        ensures
            r@ == empty_segment(base_offset as nat),
            r.ok(),
    {
        Segment {
            base_offset,
            index: SparseIndex::create(),
            next_offset: base_offset,
            size: 0,
            bytes_since_index: 0,
        }
    }

    /// Notes one record more; returns the bytes for the index, if any.
    fn note(&mut self, r: &Record, len: u64, interval: u64, indexing: bool) -> (bytes: Vec<u8>)
        requires
            old(self).ok(),
            len == encoded_size(r@),
            old(self)@.next < u64::MAX,
            old(self)@.next - old(self)@.base < u32::MAX,
            old(self)@.size + len <= u32::MAX,
            interval > 0,
        ensures
            final(self).ok(),
            final(self)@ == advance(old(self)@, r@, interval, indexing),
            bytes@ == (if indexing && old(self)@.since >= interval {
                entry_bytes(final(self)@.entries.last())
            } else {
                Seq::empty()
            }),
    {
        proof {
            lemma_advance_ok(self@, r@, interval, indexing);
        }
        let mut bytes: Vec<u8> = Vec::new();
        if indexing && self.bytes_since_index >= interval {
            let rel: u32 = (self.next_offset - self.base_offset) as u32;
            bytes = self.index.append(rel, self.size as u32);
            self.bytes_since_index = 0;
        }
        self.bytes_since_index = self.bytes_since_index + len;
        self.size = self.size + len;
        self.next_offset = self.next_offset + 1;
        bytes
    }

    /// Reopens a segment from the contents of its log file and, where there is
    /// one, its index file.
    ///
    /// `truncate_torn_tail` is true only for the newest segment: a crash can
    /// tear a write only where writes were happening, so there the first record
    /// that fails its length, its checksum or the continuity of offsets marks
    /// the tail that is truncated. In a rolled segment (fsynced before the
    /// roll), an invalid record is real corruption and must surface as an
    /// error — truncating it would silently destroy acknowledged data.
    ///
    /// An index that cannot be this file's is built anew, as a missing one is.
    /// The file is under 4 GiB.
    pub fn recover(
        base_offset: u64,
        log: &[u8],
        index: Option<&[u8]>,
        config: &LogConfig,
        truncate_torn_tail: bool,
    ) -> (r: Result<Recovery>)
        requires
            config.valid(),
            log@.len() <= u32::MAX,
            base_offset + u32::MAX <= u64::MAX,
        ensures
            match recovered(
                base_offset as nat,
                log@,
                file_view(index),
                *config,
                truncate_torn_tail,
            ) {
                Ok(s) => r is Ok && r->Ok_0.segment@ == s && s.size <= log@.len(),
                Err(e) => r is Err && r->Err_0@ == e,
            },
            r matches Ok(x) ==> x.segment.ok() && x.rebuilt == recovery_start(
                base_offset as nat,
                log@.len(),
                file_view(index),
                truncate_torn_tail,
            ).1,
    {
        let loaded_index: Option<SparseIndex> = SparseIndex::load(index);
        let mut segment: Segment = Segment::create(base_offset);
        let mut rebuild: bool = true;
        if !truncate_torn_tail {
            if let Some(idx) = loaded_index {
                if let Some((rel, pos)) = idx.last() {
                    if 32 * rel as u64 <= pos as u64 && pos as usize <= log.len() {
                        rebuild = false;
                        segment = Segment {
                            base_offset,
                            index: idx,
                            next_offset: base_offset + rel as u64,
                            size: pos as u64,
                            bytes_since_index: 0,
                        };
                    }
                } else {
                    rebuild = false;
                }
            }
        }
        let ghost start = segment@;
        assert((start, rebuild) == recovery_start(
            base_offset as nat,
            log@.len(),
            file_view(index),
            truncate_torn_tail,
        )) by {
            if !truncate_torn_tail && usable(file_view(index), log@.len()) is Some {
                assert(start.entries =~= loaded(file_view(index))->0);
            }
        }
        let ghost whole = scan(log@.skip(start.size as int), config.max_record_bytes, start.next);
        let ghost mut done: Seq<RecordView> = Seq::empty();
        let mut pos: usize = segment.size as usize;
        proof {
            lemma_nothing_done(whole);
        }
        loop
            invariant
                config.valid(),
                log@.len() <= u32::MAX,
                base_offset + u32::MAX <= u64::MAX,
                (start, rebuild) == recovery_start(
                    base_offset as nat,
                    log@.len(),
                    file_view(index),
                    truncate_torn_tail,
                ),
                start.next - base_offset <= start.size,
                whole == scan(log@.skip(start.size as int), config.max_record_bytes, start.next),
                start.size <= pos <= log@.len(),
                pos == segment@.size,
                segment@.base == base_offset,
                segment.ok(),
                segment@ == advance_all(start, done, config.index_interval_bytes, rebuild),
                segment@.next == start.next + done.len(),
                done.len() <= pos - start.size,
                whole == behind(
                    done,
                    scan(log@.skip(pos as int), config.max_record_bytes, segment@.next),
                ),
            decreases log@.len() - pos,
        {
            let rest: &[u8] = slice_subrange(log, pos, log.len());
            proof {
                assert(rest@ =~= log@.skip(pos as int));
                lemma_scan_step(done, rest@, config.max_record_bytes, segment@.next);
            }
            match Record::decode(rest, config.max_record_bytes) {
                DecodeOutcome::Record { record, consumed } => {
                    if record.offset != segment.next_offset {
                        if truncate_torn_tail {
                            return Ok(Recovery { segment, rebuilt: rebuild });
                        }
                        let mut reason: String = "offset discontinuity: expected ".to_owned();
                        push_decimal(&mut reason, segment.next_offset);
                        return Err(
                            StorageError::Corrupt {
                                offset: record.offset,
                                position: segment.size,
                                reason,
                            },
                        );
                    }
                    segment.note(&record, consumed as u64, config.index_interval_bytes, rebuild);
                    proof {
                        lemma_advance_all_push(
                            start,
                            done,
                            record@,
                            config.index_interval_bytes,
                            rebuild,
                        );
                        done = done.push(record@);
                        assert(rest@.skip(consumed as int) =~= log@.skip(pos + consumed));
                    }
                    pos = pos + consumed;
                },
                DecodeOutcome::Incomplete => {
                    if pos == log.len() || truncate_torn_tail {
                        return Ok(Recovery { segment, rebuilt: rebuild });
                    }
                    return Err(
                        StorageError::Corrupt {
                            offset: segment.next_offset,
                            position: segment.size,
                            reason: "incomplete record in rolled segment".to_owned(),
                        },
                    );
                },
                DecodeOutcome::Corrupt(reason) => {
                    if truncate_torn_tail {
                        return Ok(Recovery { segment, rebuilt: rebuild });
                    }
                    return Err(
                        StorageError::Corrupt {
                            offset: segment.next_offset,
                            position: segment.size,
                            reason,
                        },
                    );
                },
            }
        }
    }

    /// Appends a record, which must continue the segment; returns the bytes to
    /// append to its files. The caller (the log) assigns offsets and decides
    /// when to fsync.
    pub fn append(&mut self, record: &Record, config: &LogConfig) -> (w: Written)
        requires
            old(self).ok(),
            config.valid(),
            record.offset == old(self)@.next,
            old(self)@.next < u64::MAX,
            old(self)@.next - old(self)@.base < u32::MAX,
            old(self)@.size + encoded_size(record@) <= u32::MAX,
        ensures
            final(self).ok(),
            final(self)@ == advance(old(self)@, record@, config.index_interval_bytes, true),
            w.log@ == encoding(record@),
            w.index@ == (if old(self)@.since >= config.index_interval_bytes {
                entry_bytes(final(self)@.entries.last())
            } else {
                Seq::empty()
            }),
    {
        let mut buf: Vec<u8> = Vec::new();
        record.encode(&mut buf);
        proof {
            lemma_body_len(record@);
            assert(buf@ =~= encoding(record@));
        }
        let index: Vec<u8> = self.note(
            record,
            buf.len() as u64,
            config.index_interval_bytes,
            true,
        );
        Written { log: buf, index }
    }

    /// Where to read the file from to reach `offset`, which must lie in this
    /// segment.
    pub fn read_start(&self, offset: u64) -> (r: u64)
        requires
            self.ok(),
            self@.base <= offset <= self@.next,
        ensures
            r == read_position(self@, offset as nat),
    {
        let rel: u32 = (offset - self.base_offset) as u32;
        match self.index.lookup(rel) {
            Some((_, pos)) => pos as u64,
            None => 0,
        }
    }

    /// Reads records starting at `offset` (which must lie in this segment),
    /// up to roughly `max_bytes` of encoded records — always at least one.
    /// `buf` holds the segment's file from the position that `read_start` gives
    /// to the segment's size.
    pub fn read_from(&self, offset: u64, max_bytes: u64, buf: &[u8], config: &LogConfig) -> (r:
        Result<Vec<Record>>)
        requires
            self.ok(),
            buf@.len() <= u32::MAX,
        ensures
            if offset < self@.base || offset >= self@.next {
                r matches Ok(rs) && rs@.len() == 0
            } else {
                match collect(
                    buf@,
                    read_position(self@, offset as nat),
                    offset,
                    max_bytes,
                    0,
                    false,
                    config.max_record_bytes,
                ) {
                    Ok(rs) => r is Ok && views(r->Ok_0@) == rs,
                    Err((at, reason)) => r is Err && r->Err_0@ == (StorageFault::Corrupt {
                        offset: self@.next as u64,
                        position: at as u64,
                        reason,
                    }),
                }
            },
    {
        if offset < self.base_offset || offset >= self.next_offset {
            return Ok(Vec::new());
        }
        let start_pos: u64 = self.read_start(offset);
        let ghost max = config.max_record_bytes;
        let ghost whole = collect(
            buf@,
            read_position(self@, offset as nat),
            offset,
            max_bytes,
            0,
            false,
            max,
        );
        let mut out: Vec<Record> = Vec::new();
        let mut pos: usize = 0;
        let mut out_bytes: u64 = 0;
        assert(views(out@) =~= Seq::empty());
        assert(buf@.skip(0) =~= buf@);
        assert(whole == collected(Seq::empty(), whole)) by {
            if let Ok(rs) = whole {
                assert(Seq::empty() + rs =~= rs);
            }
        }
        loop
            invariant
                self.ok(),
                self@.base <= offset < self@.next,
                buf@.len() <= u32::MAX,
                max == config.max_record_bytes,
                start_pos == read_position(self@, offset as nat),
                start_pos <= u32::MAX,
                whole == collect(
                    buf@,
                    read_position(self@, offset as nat),
                    offset,
                    max_bytes,
                    0,
                    false,
                    max,
                ),
                pos <= buf@.len(),
                out_bytes <= pos,
                out@.len() == 0 ==> out_bytes == 0,
                whole == collected(
                    views(out@),
                    collect(
                        buf@.skip(pos as int),
                        (start_pos + pos) as nat,
                        offset,
                        max_bytes,
                        out_bytes as nat,
                        out@.len() > 0,
                        max,
                    ),
                ),
            decreases buf@.len() - pos,
        {
            let rest: &[u8] = slice_subrange(buf, pos, buf.len());
            proof {
                assert(rest@ =~= buf@.skip(pos as int));
                lemma_consumed(rest@, max);
            }
            match Record::decode(rest, config.max_record_bytes) {
                DecodeOutcome::Record { record, consumed } => {
                    proof {
                        assert(rest@.skip(consumed as int) =~= buf@.skip(pos + consumed));
                    }
                    pos = pos + consumed;
                    if record.offset >= offset {
                        if out.len() > 0 && out_bytes + consumed as u64 > max_bytes {
                            assert(views(out@) + Seq::<RecordView>::empty() =~= views(out@));
                            return Ok(out);
                        }
                        out_bytes = out_bytes + consumed as u64;
                        let ghost before = views(out@);
                        let ghost view = record@;
                        out.push(record);
                        assert(views(out@) =~= before.push(view));
                        if out_bytes >= max_bytes {
                            assert(before + seq![view] =~= views(out@));
                            return Ok(out);
                        }
                        proof {
                            if let Ok(rs) = collect(
                                buf@.skip(pos as int),
                                (start_pos + pos) as nat,
                                offset,
                                max_bytes,
                                out_bytes as nat,
                                true,
                                max,
                            ) {
                                assert(before + (seq![view] + rs) =~= views(out@) + rs);
                            }
                        }
                    }
                },
                DecodeOutcome::Incomplete => {
                    assert(views(out@) + Seq::<RecordView>::empty() =~= views(out@));
                    return Ok(out);
                },
                DecodeOutcome::Corrupt(reason) => {
                    return Err(
                        StorageError::Corrupt {
                            offset: self.next_offset,
                            position: start_pos + pos as u64,
                            reason,
                        },
                    );
                },
            }
        }
    }

    /// The file position where the records at `offset` and later start.
    /// `buf` holds the segment's file from the position that `read_start` gives
    /// to the segment's size.
    pub fn position_of(&self, offset: u64, buf: &[u8], config: &LogConfig) -> (r: Result<u64>)
        requires
            self.ok(),
            self@.base <= offset <= self@.next,
            buf@.len() <= u32::MAX,
        ensures
            match locate(
                buf@,
                read_position(self@, offset as nat),
                offset,
                config.max_record_bytes,
            ) {
                Ok(at) => r is Ok && r->Ok_0 == at && at <= read_position(self@, offset as nat)
                    + buf@.len(),
                Err((at, reason)) => r is Err && r->Err_0@ == (StorageFault::Corrupt {
                    offset: self@.next as u64,
                    position: at as u64,
                    reason,
                }),
            },
    {
        let start_pos: u64 = self.read_start(offset);
        let ghost max = config.max_record_bytes;
        let ghost whole = locate(buf@, read_position(self@, offset as nat), offset, max);
        let mut pos: usize = 0;
        assert(buf@.skip(0) =~= buf@);
        loop
            invariant
                self.ok(),
                self@.base <= offset <= self@.next,
                buf@.len() <= u32::MAX,
                max == config.max_record_bytes,
                start_pos == read_position(self@, offset as nat),
                start_pos <= u32::MAX,
                pos <= buf@.len(),
                whole == locate(buf@, read_position(self@, offset as nat), offset, max),
                whole == locate(buf@.skip(pos as int), (start_pos + pos) as nat, offset, max),
            decreases buf@.len() - pos,
        {
            let rest: &[u8] = slice_subrange(buf, pos, buf.len());
            proof {
                assert(rest@ =~= buf@.skip(pos as int));
                lemma_consumed(rest@, max);
            }
            match Record::decode(rest, config.max_record_bytes) {
                DecodeOutcome::Record { record, consumed } => {
                    if record.offset >= offset {
                        return Ok(start_pos + pos as u64);
                    }
                    proof {
                        assert(rest@.skip(consumed as int) =~= buf@.skip(pos + consumed));
                    }
                    pos = pos + consumed;
                },
                DecodeOutcome::Incomplete => {
                    return Ok(start_pos + pos as u64);
                },
                DecodeOutcome::Corrupt(reason) => {
                    return Err(
                        StorageError::Corrupt {
                            offset: self.next_offset,
                            position: start_pos + pos as u64,
                            reason,
                        },
                    );
                },
            }
        }
    }

    pub fn base_offset(&self) -> (r: u64)
        ensures
            r == self@.base,
    {
        self.base_offset
    }

    pub fn next_offset(&self) -> (r: u64)
        ensures
            r == self@.next,
    {
        self.next_offset
    }

    pub fn size(&self) -> (r: u64)
        ensures
            r == self@.size,
    {
        self.size
    }

    /// The bytes of an index file for this segment.
    pub fn index_bytes(&self) -> (r: Vec<u8>)
        ensures
            r@ == super::index::entries_bytes(self@.entries),
    {
        self.index.to_bytes()
    }
}

} // verus!
