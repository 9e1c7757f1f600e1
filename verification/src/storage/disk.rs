//! The files of a log as its operations leave them, and what they keep.

use super::image::{
    holds, law_append_holds, law_position_intact, law_read_changed, law_read_intact,
    law_recover_cut, law_recover_garbage, law_reopen_rolled, law_within, lemma_advance_size,
    lemma_built, lemma_built_ok, lemma_sizes, records, within,
};
use super::index::{entries_bytes, entry_bytes};
use super::log::{
    append_ops, appended, before, chained, lemma_segment_at, log_ok, must_roll, next_of, open_files,
    opened, read_result, remove_ops, rolled, roomy, segment_at, start_of, truncate_ops, truncated,
    truncation_segment, written, FileView, LogView, Op, Opening,
};
use super::record::{encoded_size, encoding, lemma_decoding_empty, storable, RecordView};
use super::scan::{behind, lemma_scan_bounds, lemma_scan_split, scan, total};
use super::segment::{
    advance, advance_all, empty_segment, lemma_advance_all_push, read_position, recovered,
    segment_ok, SegmentView,
};
use super::{LogConfig, StorageFault};
use vstd::prelude::*;

verus! {

/// The log file and the index file of each segment, by the segment's base.
pub struct Disk {
    pub logs: Map<nat, Seq<u8>>,
    pub indexes: Map<nat, Seq<u8>>,
}

/// The files after an operation.
pub open spec fn apply(d: Disk, op: Op) -> Disk {
    match op {
        Op::Create { base } => Disk {
            logs: d.logs.insert(base, Seq::empty()),
            indexes: d.indexes.insert(base, Seq::empty()),
        },
        Op::Append { base, log, index } => Disk {
            logs: d.logs.insert(base, d.logs[base] + log),
            indexes: d.indexes.insert(base, d.indexes[base] + index),
        },
        Op::Sync { base } => d,
        Op::Truncate { base, len } => Disk {
            logs: d.logs.insert(base, d.logs[base].take(len as int)),
            indexes: d.indexes,
        },
        Op::Reindex { base, index } => Disk {
            logs: d.logs,
            indexes: d.indexes.insert(base, index),
        },
        Op::Remove { base } => Disk {
            logs: d.logs.remove(base),
            indexes: d.indexes.remove(base),
        },
    }
}

/// The files after operations in order.
pub open spec fn apply_all(d: Disk, ops: Seq<Op>) -> Disk
    decreases ops.len(),
{
    if ops.len() == 0 {
        d
    } else {
        apply(apply_all(d, ops.drop_last()), ops.last())
    }
}

/// The bytes since the last index entry are counted right.
pub open spec fn since_right(s: SegmentView) -> bool {
    s.since == s.size - (if s.entries.len() == 0 {
        0
    } else {
        s.entries.last().1 as int
    })
}

/// The files of one segment are what its bookkeeping says.
pub open spec fn kept_segment(s: SegmentView, d: Disk, max: u32) -> bool {
    &&& d.logs.contains_key(s.base)
    &&& d.indexes.contains_key(s.base)
    &&& holds(s, d.logs[s.base], max)
    &&& d.indexes[s.base] == entries_bytes(s.entries)
    &&& since_right(s)
}

/// A segment is as recovery would build it from its records.
pub open spec fn as_built(s: SegmentView, d: Disk, config: LogConfig) -> bool {
    s == advance_all(
        empty_segment(s.base),
        records(s, d.logs[s.base], config.max_record_bytes),
        config.index_interval_bytes,
        true,
    )
}

/// The files are what a log's bookkeeping says.
pub open spec fn kept(v: LogView, d: Disk) -> bool {
    &&& forall|i: int|
        0 <= i < v.segments.len() ==> kept_segment(
            #[trigger] v.segments[i],
            d,
            v.config.max_record_bytes,
        )
    &&& as_built(v.segments.last(), d, v.config)
}

/// The records in the files of segments, in order.
pub open spec fn log_records(segs: Seq<SegmentView>, d: Disk, max: u32) -> Seq<RecordView>
    decreases segs.len(),
{
    if segs.len() == 0 {
        Seq::empty()
    } else {
        log_records(segs.drop_last(), d, max) + records(
            segs.last(),
            d.logs[segs.last().base],
            max,
        )
    }
}

/// All records of a log.
pub open spec fn all_records(v: LogView, d: Disk) -> Seq<RecordView> {
    log_records(v.segments, d, v.config.max_record_bytes)
}

pub proof fn lemma_bases_rise(segs: Seq<SegmentView>, i: int, j: int)
    requires
        chained(segs),
        0 <= i < j < segs.len(),
    ensures
        segs[i].base < segs[j].base,
    decreases j - i,
{
    if i + 1 < j {
        lemma_bases_rise(segs, i, j - 1);
    }
    assert(segs[j - 1].base < segs[j].base);
}

/// The records of segments depend on the files of those segments alone.
pub proof fn lemma_records_frame(segs: Seq<SegmentView>, d: Disk, e: Disk, max: u32)
    requires
        forall|i: int|
            0 <= i < segs.len() ==> d.logs[(#[trigger] segs[i]).base] == e.logs[segs[i].base],
    ensures
        log_records(segs, d, max) == log_records(segs, e, max),
    decreases segs.len(),
{
    if segs.len() > 0 {
        let head = segs.drop_last();
        assert forall|i: int| 0 <= i < head.len() implies d.logs[(#[trigger] head[i]).base]
            == e.logs[head[i].base] by {
            assert(head[i] == segs[i]);
        }
        lemma_records_frame(head, d, e, max);
        assert(segs.last() == segs[segs.len() - 1]);
    }
}

pub proof fn lemma_since_right(base: nat, rs: Seq<RecordView>, interval: u64)
    requires
        total(rs) <= u32::MAX,
        interval > 0,
    ensures
        since_right(advance_all(empty_segment(base), rs, interval, true)),
        advance_all(empty_segment(base), rs, interval, true).size == total(rs),
    decreases rs.len(),
{
    if rs.len() > 0 {
        lemma_since_right(base, rs.drop_last(), interval);
    }
}

/// The number of records of a log, and their offsets: no gap anywhere.
pub proof fn law_offsets(v: LogView, d: Disk)
    requires
        log_ok(v),
        kept(v, d),
    ensures
        all_records(v, d).len() == next_of(v) - start_of(v),
        forall|i: int|
            0 <= i < all_records(v, d).len() ==> (#[trigger] all_records(v, d)[i]).offset
                == start_of(v) + i,
{
    lemma_offsets(v, d, v.segments.len() as int);
    assert(v.segments.take(v.segments.len() as int) =~= v.segments);
}

proof fn lemma_offsets(v: LogView, d: Disk, n: int)
    requires
        log_ok(v),
        kept(v, d),
        0 < n <= v.segments.len(),
    ensures
        ({
            let rs = log_records(v.segments.take(n), d, v.config.max_record_bytes);
            &&& rs.len() == v.segments[n - 1].next - start_of(v)
            &&& forall|i: int|
                0 <= i < rs.len() ==> (#[trigger] rs[i]).offset == start_of(v) + i
        }),
    decreases n,
{
    let max = v.config.max_record_bytes;
    let segs = v.segments.take(n);
    let s = v.segments[n - 1];
    let rs = log_records(segs, d, max);
    let own = records(s, d.logs[s.base], max);
    assert(kept_segment(s, d, max));
    lemma_scan_bounds(d.logs[s.base], max, s.base);
    assert(segs.last() == s);
    assert(segs.drop_last() =~= v.segments.take(n - 1));
    let head = log_records(v.segments.take(n - 1), d, max);
    if n > 1 {
        lemma_offsets(v, d, n - 1);
        assert(v.segments[n - 2].next == v.segments[n - 1].base);
    } else {
        assert(v.segments.take(0) =~= Seq::empty());
    }
    assert(rs == head + own);
    assert forall|i: int| 0 <= i < rs.len() implies (#[trigger] rs[i]).offset == start_of(v)
        + i by {
        if i < head.len() {
            assert(rs[i] == head[i]);
        } else {
            assert(rs[i] == own[i - head.len()]);
        }
    }
}

/// Rolling keeps the files right, and every record.
pub proof fn lemma_rolled_kept(v: LogView, d: Disk, now_ms: u64)
    requires
        log_ok(v),
        kept(v, d),
        v.segments.last().size > 0,
    ensures
        ({
            let w = rolled(v, now_ms);
            let e = apply(d, Op::Create { base: next_of(v) });
            &&& kept(w, e)
            &&& all_records(w, e) == all_records(v, d)
        }),
{
    let w = rolled(v, now_ms);
    let base = next_of(v);
    let e = apply(d, Op::Create { base });
    let max = v.config.max_record_bytes;
    let n = v.segments.len() as int;
    assert forall|i: int| 0 <= i < n implies #[trigger] v.segments[i].base < base by {
        if i < n - 1 {
            lemma_bases_rise(v.segments, i, n - 1);
        }
        assert(v.segments.last() == v.segments[n - 1]);
    }
    let fresh = empty_segment(base);
    assert(entries_bytes(fresh.entries) =~= Seq::empty());
    lemma_decoding_empty(max);
    assert(scan(Seq::empty(), max, base).records =~= Seq::empty());
    assert(holds(fresh, Seq::empty(), max));
    assert forall|i: int| 0 <= i < w.segments.len() implies kept_segment(
        #[trigger] w.segments[i],
        e,
        max,
    ) by {
        if i < n {
            assert(w.segments[i] == v.segments[i]);
            assert(kept_segment(v.segments[i], d, max));
        }
    }
    assert forall|i: int| 0 <= i < v.segments.len() implies d.logs[(#[trigger] v.segments[i]).base]
        == e.logs[v.segments[i].base] by {
        assert(v.segments[i].base < base);
    }
    lemma_records_frame(v.segments, d, e, max);
    assert(w.segments.drop_last() =~= v.segments);
    assert(log_records(v.segments, e, max) + Seq::<RecordView>::empty() =~= log_records(
        v.segments,
        e,
        max,
    ));
}

/// The operation that writes a record to the files of a segment.
pub open spec fn write_op(s: SegmentView, r: RecordView, interval: u64) -> Op {
    Op::Append {
        base: s.base,
        log: encoding(r),
        index: if s.since >= interval {
            entry_bytes(advance(s, r, interval, true).entries.last())
        } else {
            Seq::empty()
        },
    }
}

pub proof fn lemma_segment_written(s: SegmentView, d: Disk, r: RecordView, config: LogConfig)
    requires
        config.valid(),
        kept_segment(s, d, config.max_record_bytes),
        as_built(s, d, config),
        segment_ok(s),
        r.offset == s.next,
        storable(r, config.max_record_bytes),
    ensures
        ({
            let t = advance(s, r, config.index_interval_bytes, true);
            let e = apply(d, write_op(s, r, config.index_interval_bytes));
            &&& kept_segment(t, e, config.max_record_bytes)
            &&& as_built(t, e, config)
            &&& records(t, e.logs[t.base], config.max_record_bytes) == records(
                s,
                d.logs[s.base],
                config.max_record_bytes,
            ).push(r)
        }),
{
    let max = config.max_record_bytes;
    let interval = config.index_interval_bytes;
    let t = advance(s, r, interval, true);
    let e = apply(d, write_op(s, r, interval));
    let file = d.logs[s.base];
    law_append_holds(s, file, r, interval, max);
    lemma_advance_all_push(empty_segment(s.base), records(s, file, max), r, interval, true);
    if s.since >= interval {
        assert(t.entries.drop_last() =~= s.entries);
    } else {
        assert(entries_bytes(s.entries) + Seq::<u8>::empty() =~= entries_bytes(s.entries));
    }
    assert(e.logs[t.base] == file + encoding(r));
    assert(e.indexes[t.base] == entries_bytes(t.entries));
}

/// Writing a record keeps the files right, and puts the record behind the
/// others.
pub proof fn lemma_written_kept(v: LogView, d: Disk, r: RecordView)
    requires
        log_ok(v),
        kept(v, d),
        r.offset == next_of(v),
        storable(r, v.config.max_record_bytes),
    ensures
        ({
            let s = v.segments.last();
            let w = written(v, r);
            let e = apply(d, write_op(s, r, v.config.index_interval_bytes));
            &&& kept(w, e)
            &&& all_records(w, e) == all_records(v, d).push(r)
        }),
{
    let max = v.config.max_record_bytes;
    let interval = v.config.index_interval_bytes;
    let n = v.segments.len() as int;
    let s = v.segments.last();
    assert(s == v.segments[n - 1]);
    assert(kept_segment(s, d, max));
    let t = advance(s, r, interval, true);
    let w = written(v, r);
    assert(w.segments.last() == t);
    let e = apply(d, write_op(s, r, interval));
    let old_rs = records(s, d.logs[s.base], max);
    lemma_segment_written(s, d, r, v.config);
    assert forall|i: int| 0 <= i < w.segments.len() implies kept_segment(
        #[trigger] w.segments[i],
        e,
        max,
    ) by {
        if i < n - 1 {
            assert(w.segments[i] == v.segments[i]);
            assert(kept_segment(v.segments[i], d, max));
            lemma_bases_rise(v.segments, i, n - 1);
        }
    }
    let head = v.segments.drop_last();
    assert forall|i: int| 0 <= i < head.len() implies d.logs[(#[trigger] head[i]).base]
        == e.logs[head[i].base] by {
        lemma_bases_rise(v.segments, i, n - 1);
        assert(head[i] == v.segments[i]);
    }
    lemma_records_frame(head, d, e, max);
    assert(w.segments.drop_last() =~= head);
    assert(log_records(head, d, max) + old_rs.push(r) =~= (log_records(head, d, max) + old_rs).push(
        r,
    ));
}

/// What an append writes is behind everything written before, the log stays
/// consistent, and the files go on being what it says.
pub proof fn law_append(v: LogView, d: Disk, r: RecordView, now_ms: u64)
    requires
        log_ok(v),
        next_of(v) < super::log::MAX_OFFSET,
        kept(v, d),
        r.offset == next_of(v),
        encoded_size(r) <= v.config.max_record_bytes,
    ensures
        ({
            let w = appended(v, r, now_ms);
            let e = apply_all(d, append_ops(v, r, now_ms));
            &&& log_ok(w)
            &&& kept(w, e)
            &&& all_records(w, e) == all_records(v, d).push(r)
        }),
{
    let room = roomy(v, r, now_ms);
    let ops = append_ops(v, r, now_ms);
    let s = v.segments.last();
    let d1 = if must_roll(v, encoded_size(r)) {
        apply(d, Op::Create { base: next_of(v) })
    } else {
        d
    };
    if must_roll(v, encoded_size(r)) {
        lemma_rolled_kept(v, d, now_ms);
        lemma_rolled_ok(v, now_ms);
    }
    lemma_written_kept(room, d1, r);
    lemma_written_ok(room, r);
    let w = written(room, r);
    let seg = room.segments.last();
    let write = Op::Append {
        base: seg.base,
        log: encoding(r),
        index: if seg.since >= v.config.index_interval_bytes {
            entry_bytes(w.segments.last().entries.last())
        } else {
            Seq::empty()
        },
    };
    let d2 = apply(d1, write);
    let sync = Op::Sync { base: seg.base };
    reveal_with_fuel(apply_all, 5);
    let first = if must_roll(v, encoded_size(r)) {
        seq![Op::Sync { base: s.base }, Op::Create { base: next_of(v) }]
    } else {
        Seq::empty()
    };
    assert(apply_all(d, first) == d1) by {
        if must_roll(v, encoded_size(r)) {
            assert(first.drop_last() =~= seq![Op::Sync { base: s.base }]);
            assert(first.drop_last().drop_last() =~= Seq::empty());
        }
    }
    assert(first.push(write).drop_last() =~= first);
    assert(apply_all(d, first.push(write)) == d2);
    assert(first.push(write).push(sync).drop_last() =~= first.push(write));
    assert(apply_all(d, ops) == d2);
}

pub proof fn lemma_written_ok(v: LogView, r: RecordView)
    requires
        log_ok(v),
        next_of(v) < super::log::MAX_OFFSET,
        r.offset == next_of(v),
        encoded_size(r) <= v.config.max_record_bytes,
        v.segments.last().size + encoded_size(r) <= u32::MAX,
    ensures
        log_ok(written(v, r)),
{
}

pub proof fn lemma_rolled_ok(v: LogView, now_ms: u64)
    requires
        log_ok(v),
        v.segments.last().size > 0,
    ensures
        log_ok(rolled(v, now_ms)),
{
    let w = rolled(v, now_ms);
    assert(w.segments.last() == empty_segment(next_of(v)));
}

/// The records of the segments before one are in front of its own.
pub proof fn lemma_records_at(v: LogView, d: Disk, i: int)
    requires
        log_ok(v),
        kept(v, d),
        0 <= i < v.segments.len(),
    ensures
        ({
            let s = v.segments[i];
            let own = records(s, d.logs[s.base], v.config.max_record_bytes);
            let all = all_records(v, d);
            &&& s.next - start_of(v) <= all.len()
            &&& start_of(v) <= s.base
            &&& own == all.subrange(s.base - start_of(v), s.next - start_of(v))
        }),
{
    lemma_records_upto(v, d, i, v.segments.len() as int);
    assert(v.segments.take(v.segments.len() as int) =~= v.segments);
}

proof fn lemma_records_upto(v: LogView, d: Disk, i: int, n: int)
    requires
        log_ok(v),
        kept(v, d),
        0 <= i < n <= v.segments.len(),
    ensures
        ({
            let s = v.segments[i];
            let own = records(s, d.logs[s.base], v.config.max_record_bytes);
            let all = log_records(v.segments.take(n), d, v.config.max_record_bytes);
            &&& s.next - start_of(v) <= all.len()
            &&& start_of(v) <= s.base
            &&& own == all.subrange(s.base - start_of(v), s.next - start_of(v))
        }),
    decreases n,
{
    let max = v.config.max_record_bytes;
    let segs = v.segments.take(n);
    let last = v.segments[n - 1];
    let all = log_records(segs, d, max);
    let s = v.segments[i];
    let own = records(s, d.logs[s.base], max);
    assert(segs.last() == last);
    assert(segs.drop_last() =~= v.segments.take(n - 1));
    assert(kept_segment(s, d, max));
    let head = log_records(v.segments.take(n - 1), d, max);
    if i < n - 1 {
        lemma_records_upto(v, d, i, n - 1);
        assert(all.subrange(s.base - start_of(v), s.next - start_of(v)) =~= head.subrange(
            s.base - start_of(v),
            s.next - start_of(v),
        ));
    } else {
        if n > 1 {
            lemma_offsets(v, d, n - 1);
            assert(v.segments[n - 2].next == v.segments[n - 1].base);
            lemma_bases_rise(v.segments, 0, n - 1);
        } else {
            assert(v.segments.take(0) =~= Seq::empty());
        }
        assert(all.subrange(s.base - start_of(v), s.next - start_of(v)) =~= own);
    }
}

/// A read gives back what was written: a run of the log's records that starts
/// at the offset asked for, with at least one record.
pub proof fn law_read(v: LogView, d: Disk, offset: u64, max_bytes: u64)
    requires
        log_ok(v),
        kept(v, d),
        start_of(v) <= offset < next_of(v),
    ensures
        ({
            let s = v.segments[segment_at(v.segments, offset as nat)];
            let at = read_position(s, offset as nat) as int;
            let got = read_result(v, offset, max_bytes, d.logs[s.base].skip(at));
            &&& at <= s.size
            &&& got is Ok
            &&& got->Ok_0 == within(
                all_records(v, d).subrange(offset - start_of(v), s.next - start_of(v)),
                max_bytes,
            )
            &&& got->Ok_0.len() > 0
            &&& offset - start_of(v) + got->Ok_0.len() <= all_records(v, d).len()
            &&& got->Ok_0 == all_records(v, d).subrange(
                offset - start_of(v),
                offset - start_of(v) + got->Ok_0.len(),
            )
        }),
{
    let max = v.config.max_record_bytes;
    lemma_segment_at(v.segments, offset as nat);
    let i = segment_at(v.segments, offset as nat);
    let s = v.segments[i];
    assert(kept_segment(s, d, max));
    assert(segment_ok(s));
    assert(s.base <= offset < s.next) by {
        if i + 1 == v.segments.len() {
            assert(s == v.segments.last());
        }
    }
    law_read_intact(s, d.logs[s.base], offset, max_bytes, max);
    lemma_records_at(v, d, i);
    let own = records(s, d.logs[s.base], max);
    let tail = own.skip(offset - s.base);
    let all = all_records(v, d);
    assert(tail =~= all.subrange(offset - start_of(v), s.next - start_of(v)));
    law_within(tail, max_bytes);
    let got = within(tail, max_bytes);
    lemma_scan_bounds(d.logs[s.base], max, s.base);
    assert(got =~= all.subrange(offset - start_of(v), offset - start_of(v) + got.len()));
}

/// The files of segments, as opening a log finds them.
pub open spec fn files_of(segs: Seq<SegmentView>, d: Disk) -> Seq<FileView> {
    segs.map_values(
        |s: SegmentView|
            FileView { base: s.base, log: d.logs[s.base], index: Some(d.indexes[s.base]) },
    )
}

proof fn lemma_open_closed(v: LogView, d: Disk, n: int)
    requires
        log_ok(v),
        kept(v, d),
        0 <= n < v.segments.len(),
    ensures
        open_files(files_of(v.segments, d).take(n), v.config, v.segments.last().base) == Ok::<
            Opening,
            StorageFault,
        >(
            Opening {
                closed: v.segments.take(n),
                active: None,
                expected: if n == 0 {
                    None
                } else {
                    Some(v.segments[n - 1].next)
                },
            },
        ),
    decreases n,
{
    let files = files_of(v.segments, d);
    let last = v.segments.last().base;
    if n == 0 {
        assert(v.segments.take(0) =~= Seq::empty());
        assert(files.take(0) =~= Seq::empty());
    } else {
        lemma_open_closed(v, d, n - 1);
        let s = v.segments[n - 1];
        let f = files[n - 1];
        assert(kept_segment(s, d, v.config.max_record_bytes));
        assert(segment_ok(s));
        law_reopen_rolled(s, d.logs[s.base], v.config);
        lemma_bases_rise(v.segments, n - 1, v.segments.len() - 1);
        assert(files.take(n).drop_last() =~= files.take(n - 1));
        assert(files.take(n).last() == f);
        if n > 1 {
            assert(v.segments[n - 2].next == v.segments[n - 1].base);
            assert(v.segments.take(n - 1).last() == v.segments[n - 2]);
        }
        assert(v.segments.take(n) =~= v.segments.take(n - 1).push(s));
    }
}

/// A record of which one byte was changed on disk, behind its length field, is
/// never served: a read at its offset reports corruption.
pub proof fn law_changed(v: LogView, d: Disk, offset: u64, max_bytes: u64, i: int, b: u8)
    requires
        log_ok(v),
        kept(v, d),
        start_of(v) <= offset < next_of(v),
        ({
            let s = v.segments[segment_at(v.segments, offset as nat)];
            let rs = records(s, d.logs[s.base], v.config.max_record_bytes);
            let n = offset - s.base;
            &&& total(rs.take(n)) + 4 <= i < total(rs.take(n + 1))
            &&& d.logs[s.base][i] != b
        }),
    ensures
        ({
            let s = v.segments[segment_at(v.segments, offset as nat)];
            let at = read_position(s, offset as nat) as int;
            let file = d.logs[s.base].update(i, b);
            read_result(v, offset, max_bytes, file.skip(at)) matches Err(e) && e is Corrupt
        }),
{
    let max = v.config.max_record_bytes;
    lemma_segment_at(v.segments, offset as nat);
    let t = segment_at(v.segments, offset as nat);
    let s = v.segments[t];
    assert(kept_segment(s, d, max));
    assert(segment_ok(s));
    assert(s.base <= offset < s.next) by {
        if t + 1 == v.segments.len() {
            assert(s == v.segments.last());
        }
    }
    law_read_changed(s, d.logs[s.base], offset, max_bytes, max, i, b);
}

/// Opening the files of a log again gives the same segments, with everything
/// that is in them counted as durable.
pub proof fn law_reopen(v: LogView, d: Disk, now_ms: u64)
    requires
        log_ok(v),
        kept(v, d),
    ensures
        opened(files_of(v.segments, d), v.config, now_ms) == Ok::<LogView, StorageFault>(
            LogView {
                config: v.config,
                segments: v.segments,
                durable: before(next_of(v)),
                dirty: 0,
                last_flush_ms: now_ms,
            },
        ),
{
    let s = v.segments.last();
    let n = v.segments.len() as int;
    assert(s == v.segments[n - 1]);
    assert(kept_segment(s, d, v.config.max_record_bytes));
    let file = d.logs[s.base];
    let rs = records(s, file, v.config.max_record_bytes);
    lemma_scan_bounds(file, v.config.max_record_bytes, s.base);
    assert(rs.take(rs.len() as int) =~= rs);
    assert(file.take(file.len() as int) =~= file);
    law_recover_cut(
        s,
        file,
        Some(d.indexes[s.base]),
        v.config,
        file.len() as int,
        rs.len() as int,
    );
    lemma_open_newest(v, d, file, s);
    assert(v.segments.drop_last().push(s) =~= v.segments);
    let files = files_of(v.segments, d);
    assert(newest_file(v, d, file) =~= files);
}

/// The files of a log with other contents in the newest segment's log file.
pub open spec fn newest_file(v: LogView, d: Disk, file: Seq<u8>) -> Seq<FileView> {
    let s = v.segments.last();
    files_of(v.segments, d).drop_last().push(
        FileView { base: s.base, log: file, index: Some(d.indexes[s.base]) },
    )
}

proof fn lemma_open_newest(v: LogView, d: Disk, file: Seq<u8>, s: SegmentView)
    requires
        log_ok(v),
        kept(v, d),
        recovered(
            v.segments.last().base,
            file,
            Some(d.indexes[v.segments.last().base]),
            v.config,
            true,
        ) == Ok::<SegmentView, StorageFault>(s),
    ensures
        open_files(newest_file(v, d, file), v.config, v.segments.last().base) == Ok::<
            Opening,
            StorageFault,
        >(
            Opening {
                closed: v.segments.drop_last(),
                active: Some(s),
                expected: Some(s.next),
            },
        ),
{
    let n = v.segments.len() as int;
    let files = newest_file(v, d, file);
    lemma_open_closed(v, d, n - 1);
    assert(files.drop_last() =~= files_of(v.segments, d).take(n - 1));
    assert(v.segments.take(n - 1) =~= v.segments.drop_last());
    if n > 1 {
        assert(v.segments[n - 2].next == v.segments[n - 1].base);
    }
}

/// A crash that leaves only the first `cut` bytes of the newest log file: the
/// log opens, and has exactly the records that are whole. All records of the
/// other segments are there.
pub proof fn law_crash(v: LogView, d: Disk, cut: int, k: int, now_ms: u64)
    requires
        log_ok(v),
        kept(v, d),
        ({
            let s = v.segments.last();
            let rs = records(s, d.logs[s.base], v.config.max_record_bytes);
            &&& 0 <= k <= rs.len()
            &&& total(rs.take(k)) <= cut <= s.size
            &&& k < rs.len() ==> cut < total(rs.take(k + 1))
        }),
    ensures
        ({
            let s = v.segments.last();
            let file = d.logs[s.base];
            let rs = records(s, file, v.config.max_record_bytes);
            let t = advance_all(
                empty_segment(s.base),
                rs.take(k),
                v.config.index_interval_bytes,
                true,
            );
            &&& opened(newest_file(v, d, file.take(cut)), v.config, now_ms) == Ok::<
                LogView,
                StorageFault,
            >(
                LogView {
                    config: v.config,
                    segments: v.segments.drop_last().push(t),
                    durable: before(t.next),
                    dirty: 0,
                    last_flush_ms: now_ms,
                },
            )
            &&& t.next == s.base + k
            &&& t.size == total(rs.take(k))
        }),
{
    let s = v.segments.last();
    assert(s == v.segments[v.segments.len() - 1]);
    assert(kept_segment(s, d, v.config.max_record_bytes));
    let file = d.logs[s.base];
    let rs = records(s, file, v.config.max_record_bytes);
    law_recover_cut(s, file, Some(d.indexes[s.base]), v.config, cut, k);
    let t = advance_all(empty_segment(s.base), rs.take(k), v.config.index_interval_bytes, true);
    lemma_advance_size(empty_segment(s.base), rs.take(k), v.config.index_interval_bytes, true);
    lemma_open_newest(v, d, file.take(cut), t);
}

/// Whatever follows the records of the newest log file, a torn write, bad bytes
/// or records that do not continue the log: the log opens, and has all of its
/// records, with those behind them that do continue it.
pub proof fn law_garbage(v: LogView, d: Disk, garbage: Seq<u8>, now_ms: u64)
    requires
        log_ok(v),
        kept(v, d),
    ensures
        ({
            let s = v.segments.last();
            let file = d.logs[s.base];
            let max = v.config.max_record_bytes;
            let rs = records(s, file, max) + scan(garbage, max, s.next).records;
            let t = advance_all(empty_segment(s.base), rs, v.config.index_interval_bytes, true);
            &&& opened(newest_file(v, d, file + garbage), v.config, now_ms) == Ok::<
                LogView,
                StorageFault,
            >(
                LogView {
                    config: v.config,
                    segments: v.segments.drop_last().push(t),
                    durable: before(t.next),
                    dirty: 0,
                    last_flush_ms: now_ms,
                },
            )
            &&& t.next == s.base + rs.len()
            &&& t.size == total(rs)
        }),
{
    let s = v.segments.last();
    assert(s == v.segments[v.segments.len() - 1]);
    assert(kept_segment(s, d, v.config.max_record_bytes));
    let file = d.logs[s.base];
    let max = v.config.max_record_bytes;
    let rs = records(s, file, max) + scan(garbage, max, s.next).records;
    law_recover_garbage(s, file, garbage, Some(d.indexes[s.base]), v.config);
    let t = advance_all(empty_segment(s.base), rs, v.config.index_interval_bytes, true);
    lemma_advance_size(empty_segment(s.base), rs, v.config.index_interval_bytes, true);
    lemma_open_newest(v, d, file + garbage, t);
}

/// Records whose bytes all survive a crash are among those that the log has
/// afterwards.
pub proof fn law_survivors(rs: Seq<RecordView>, cut: int, k: int, m: int)
    requires
        0 <= k <= rs.len(),
        0 <= m <= rs.len(),
        total(rs.take(m)) <= cut,
        k < rs.len() ==> cut < total(rs.take(k + 1)),
    ensures
        m <= k,
{
    if m > k {
        lemma_total_rises(rs, k + 1, m);
    }
}

pub proof fn lemma_total_rises(rs: Seq<RecordView>, a: int, b: int)
    requires
        0 <= a <= b <= rs.len(),
    ensures
        total(rs.take(a)) <= total(rs.take(b)),
    decreases b - a,
{
    if a < b {
        lemma_total_rises(rs, a, b - 1);
        assert(rs.take(b).drop_last() =~= rs.take(b - 1));
    }
}

/// Cutting a log whose files are right: it ends where it was told to, keeps all
/// records before that, and its files are right again.
#[verifier::rlimit(50)]
pub proof fn law_truncate(v: LogView, d: Disk, new_next: u64)
    requires
        log_ok(v),
        kept(v, d),
        start_of(v) <= new_next < next_of(v),
    ensures
        ({
            let t = truncation_segment(v, new_next as nat);
            let cut = truncated(v, new_next, d.logs[v.segments[t].base]);
            let w = cut->Ok_0;
            let e = apply_all(d, truncate_ops(v, w));
            &&& cut is Ok
            &&& next_of(w) == new_next
            &&& start_of(w) == start_of(v)
            &&& kept(w, e)
            &&& all_records(w, e) == all_records(v, d).take(new_next - start_of(v))
        }),
{
    let max = v.config.max_record_bytes;
    let interval = v.config.index_interval_bytes;
    let t = truncation_segment(v, new_next as nat);
    if new_next != start_of(v) {
        lemma_segment_at(v.segments, (new_next - 1) as nat);
    }
    let s = v.segments[t];
    assert(kept_segment(s, d, max));
    assert(segment_ok(s));
    assert(s.base <= new_next <= s.next) by {
        if t + 1 == v.segments.len() {
            assert(s == v.segments.last());
        }
    }
    let file = d.logs[s.base];
    let rs = records(s, file, max);
    let k = new_next - s.base;
    law_position_intact(s, file, new_next, max);
    lemma_scan_bounds(file, max, s.base);
    lemma_scan_split(file, max, s.base, k);
    let at = total(rs.take(k)) as int;
    if k < rs.len() {
        assert(rs.take(k + 1).drop_last() =~= rs.take(k));
        assert(rs.take(k + 1).last() == rs[k]);
    }
    law_recover_cut(s, file, None, v.config, at, k);
    let kept_seg = advance_all(empty_segment(s.base), rs.take(k), interval, true);
    let w = truncated(v, new_next, file)->Ok_0;
    assert(w.segments == v.segments.take(t).push(kept_seg));
    lemma_advance_size(empty_segment(s.base), rs.take(k), interval, true);
    lemma_sizes(rs.take(k));
    lemma_built(s.base, rs.take(k), interval);
    lemma_since_right(s.base, rs.take(k), interval);
    let ops = truncate_ops(v, w);
    let n = v.segments.len() as int;
    let removes = remove_ops(v.segments, t + 1, n);
    lemma_removed(v, d, t, n);
    let d1 = apply_all(d, removes);
    let cut_op = Op::Truncate { base: kept_seg.base, len: kept_seg.size };
    let index_op = Op::Reindex { base: kept_seg.base, index: entries_bytes(kept_seg.entries) };
    let d2 = apply(d1, cut_op);
    let e = apply(d2, index_op);
    assert(removes.push(cut_op).drop_last() =~= removes);
    assert(apply_all(d, removes.push(cut_op)) == d2);
    assert(removes.push(cut_op).push(index_op).drop_last() =~= removes.push(cut_op));
    assert(apply_all(d, ops) == e);
    assert(d1.logs[s.base] == file);
    assert(e.logs[s.base] == file.take(at));
    assert(scan(file.take(at), max, s.base).records == rs.take(k));
    assert(kept_segment(kept_seg, e, max));
    assert(as_built(kept_seg, e, v.config));
    assert forall|i: int| 0 <= i < w.segments.len() implies kept_segment(
        #[trigger] w.segments[i],
        e,
        max,
    ) by {
        if i < t {
            assert(w.segments[i] == v.segments[i]);
            assert(kept_segment(v.segments[i], d, max));
            lemma_bases_rise(v.segments, i, t);
        }
    }
    let head = v.segments.take(t);
    assert forall|i: int| 0 <= i < head.len() implies d.logs[(#[trigger] head[i]).base]
        == e.logs[head[i].base] by {
        assert(head[i] == v.segments[i]);
        lemma_bases_rise(v.segments, i, t);
    }
    lemma_records_frame(head, d, e, max);
    assert(w.segments.drop_last() =~= head);
    assert(w.segments.last() == kept_seg);
    law_offsets(v, d);
    lemma_records_at(v, d, t);
    let all = all_records(v, d);
    lemma_records_prefix(v, d, t);
    assert(all_records(w, e) == log_records(head, d, max) + rs.take(k));
    assert(all_records(w, e) =~= all.take(new_next - start_of(v)));
    if t > 0 {
        assert(w.segments[0] == v.segments[0]);
    }
}

/// A log and its files after a cut at `new_next`.
pub open spec fn after_truncate(v: LogView, d: Disk, new_next: u64) -> (LogView, Disk) {
    if new_next >= next_of(v) {
        (v, d)
    } else {
        let t = truncation_segment(v, new_next as nat);
        let w = truncated(v, new_next, d.logs[v.segments[t].base])->Ok_0;
        (w, apply_all(d, truncate_ops(v, w)))
    }
}

proof fn lemma_truncated_ok(v: LogView, d: Disk, new_next: u64)
    requires
        log_ok(v),
        kept(v, d),
        start_of(v) <= new_next < next_of(v),
    ensures
        log_ok(after_truncate(v, d, new_next).0),
{
    let max = v.config.max_record_bytes;
    let interval = v.config.index_interval_bytes;
    let t = truncation_segment(v, new_next as nat);
    if new_next != start_of(v) {
        lemma_segment_at(v.segments, (new_next - 1) as nat);
    }
    let s = v.segments[t];
    assert(kept_segment(s, d, max));
    assert(segment_ok(s));
    assert(s.base <= new_next <= s.next) by {
        if t + 1 == v.segments.len() {
            assert(s == v.segments.last());
        }
    }
    let file = d.logs[s.base];
    let rs = records(s, file, max);
    let k = new_next - s.base;
    law_position_intact(s, file, new_next, max);
    lemma_scan_bounds(file, max, s.base);
    lemma_total_rises(rs, k, rs.len() as int);
    assert(rs.take(rs.len() as int) =~= rs);
    if k < rs.len() {
        assert(rs.take(k + 1).drop_last() =~= rs.take(k));
    }
    law_recover_cut(s, file, None, v.config, total(rs.take(k)) as int, k);
    let kept_seg = advance_all(empty_segment(s.base), rs.take(k), interval, true);
    let w = after_truncate(v, d, new_next).0;
    assert(w.segments == v.segments.take(t).push(kept_seg));
    lemma_advance_size(empty_segment(s.base), rs.take(k), interval, true);
    lemma_sizes(rs.take(k));
    lemma_built_ok(s.base, rs.take(k), interval);
    assert(w.segments.last() == kept_seg);
    assert forall|i: int| 0 <= i < w.segments.len() implies segment_ok(
        #[trigger] w.segments[i],
    ) by {
        if i < t {
            assert(segment_ok(v.segments[i]));
        }
    }
    assert forall|i: int, j: int|
        #![trigger w.segments[i], w.segments[j]]
        0 <= i && j == i + 1 && j < w.segments.len() implies w.segments[i].next
        == w.segments[j].base && w.segments[i].base < w.segments[j].base by {
        assert(v.segments[i].next == v.segments[j].base);
    }
}

/// A cut log goes on where it was cut: it ends there, starts where it started,
/// holds exactly the records before the cut, has nothing to read at its end, is
/// the same after a reopen, and appends at the cut.
pub proof fn law_truncate_goes_on(
    v: LogView,
    d: Disk,
    new_next: u64,
    max_bytes: u64,
    now_ms: u64,
    r: RecordView,
)
    requires
        log_ok(v),
        kept(v, d),
        start_of(v) <= new_next <= next_of(v),
        new_next < super::log::MAX_OFFSET,
        r.offset == new_next,
        encoded_size(r) <= v.config.max_record_bytes,
    ensures
        ({
            let (w, e) = after_truncate(v, d, new_next);
            let x = appended(w, r, now_ms);
            let f = apply_all(e, append_ops(w, r, now_ms));
            let again = opened(files_of(w.segments, e), w.config, now_ms);
            &&& log_ok(w) && kept(w, e)
            &&& start_of(w) == start_of(v)
            &&& next_of(w) == new_next
            &&& all_records(w, e) == all_records(v, d).take(new_next - start_of(v))
            &&& read_result(w, new_next, max_bytes, Seq::empty()) == Ok::<
                Seq<RecordView>,
                StorageFault,
            >(Seq::empty())
            &&& again matches Ok(o) && o.segments == w.segments && all_records(o, e)
                == all_records(w, e)
            &&& log_ok(x) && kept(x, f)
            &&& all_records(x, f) == all_records(w, e).push(r)
        }),
{
    let (w, e) = after_truncate(v, d, new_next);
    law_offsets(v, d);
    if new_next < next_of(v) {
        law_truncate(v, d, new_next);
        lemma_truncated_ok(v, d, new_next);
    } else {
        assert(all_records(v, d).take(new_next - start_of(v)) =~= all_records(v, d));
    }
    assert(w.config == v.config);
    law_reopen(w, e, now_ms);
    law_append(w, e, r, now_ms);
}

/// The records of the first segments are the first records.
pub proof fn lemma_records_prefix(v: LogView, d: Disk, n: int)
    requires
        log_ok(v),
        kept(v, d),
        0 <= n < v.segments.len(),
    ensures
        ({
            let head = log_records(v.segments.take(n), d, v.config.max_record_bytes);
            &&& v.segments[n].base - start_of(v) <= all_records(v, d).len()
            &&& start_of(v) <= v.segments[n].base
            &&& head == all_records(v, d).take(v.segments[n].base - start_of(v))
        }),
{
    let max = v.config.max_record_bytes;
    if n > 0 {
        lemma_offsets(v, d, n);
        assert(v.segments[n - 1].next == v.segments[n].base);
        lemma_bases_rise(v.segments, 0, n);
    } else {
        assert(v.segments.take(0) =~= Seq::empty());
    }
    lemma_records_grow(v.segments, d, max, n, v.segments.len() as int);
    assert(v.segments.take(v.segments.len() as int) =~= v.segments);
    let head = log_records(v.segments.take(n), d, max);
    assert(head =~= all_records(v, d).take(head.len() as int));
}

proof fn lemma_records_grow(segs: Seq<SegmentView>, d: Disk, max: u32, a: int, b: int)
    requires
        0 <= a <= b <= segs.len(),
    ensures
        ({
            let x = log_records(segs.take(a), d, max);
            let y = log_records(segs.take(b), d, max);
            &&& x.len() <= y.len()
            &&& x == y.take(x.len() as int)
        }),
    decreases b - a,
{
    let x = log_records(segs.take(a), d, max);
    let y = log_records(segs.take(b), d, max);
    if a < b {
        lemma_records_grow(segs, d, max, a, b - 1);
        assert(segs.take(b).drop_last() =~= segs.take(b - 1));
        let z = log_records(segs.take(b - 1), d, max);
        assert(y.take(x.len() as int) =~= z.take(x.len() as int));
    } else {
        assert(x =~= y.take(x.len() as int));
    }
}

/// Removing later segments leaves the files of the earlier ones.
proof fn lemma_removed(v: LogView, d: Disk, t: int, n: int)
    requires
        log_ok(v),
        0 <= t < n <= v.segments.len(),
    ensures
        ({
            let e = apply_all(d, remove_ops(v.segments, t + 1, n));
            forall|i: int|
                0 <= i <= t ==> {
                    &&& e.logs.contains_key((#[trigger] v.segments[i]).base)
                        == d.logs.contains_key(v.segments[i].base)
                    &&& e.indexes.contains_key(v.segments[i].base) == d.indexes.contains_key(
                        v.segments[i].base,
                    )
                    &&& d.logs.contains_key(v.segments[i].base) ==> e.logs[v.segments[i].base]
                        == d.logs[v.segments[i].base]
                    &&& d.indexes.contains_key(v.segments[i].base)
                        ==> e.indexes[v.segments[i].base] == d.indexes[v.segments[i].base]
                }
        }),
    decreases n,
{
    if t + 1 < n {
        lemma_removed(v, d, t, n - 1);
        let ops = remove_ops(v.segments, t + 1, n);
        assert(ops.drop_last() =~= remove_ops(v.segments, t + 1, n - 1));
        assert forall|i: int| 0 <= i <= t implies #[trigger] v.segments[i].base
            != v.segments[n - 1].base by {
            lemma_bases_rise(v.segments, i, n - 1);
        }
    }
}

} // verus!
