//! What a segment's bookkeeping says of its files, and the laws of appending,
//! reading, recovering and cutting them.

use super::index::{entries_bytes, floor_entry, law_index_roundtrip, rising};
use super::record::{
    decoding, encoded_size, encoding, law_record_changed, law_record_roundtrip, lemma_body_len,
    lemma_decoding_empty, storable, Found, RecordView,
};
use super::scan::{
    behind, content, in_row, law_scan_intact, law_scan_prefix, lemma_consumed, lemma_scan_bounds,
    lemma_scan_split, lemma_total_add, lemma_total_first, scan, total, Scan, Stop,
};
use super::segment::{
    advance, advance_all, collect, empty_segment, lemma_advance_ok, locate, read_position,
    recovered, recovery, recovery_start, segment_ok, SegmentView,
};
use super::{LogConfig, StorageFault};
use vstd::prelude::*;

verus! {

/// Every index entry points at the record that it names.
pub open spec fn entries_point(es: Seq<(u32, u32)>, rs: Seq<RecordView>) -> bool {
    forall|i: int|
        0 <= i < es.len() ==> (#[trigger] es[i]).0 <= rs.len() && es[i].1 == total(
            rs.take(es[i].0 as int),
        )
}

/// The bytes `file` are what a segment's bookkeeping says of its log file.
pub open spec fn holds(s: SegmentView, file: Seq<u8>, max: u32) -> bool {
    let found = scan(file, max, s.base);
    &&& found.stop is Clean
    &&& s.next == s.base + found.records.len()
    &&& s.size == file.len()
    &&& entries_point(s.entries, found.records)
}

/// The records in a segment's log file.
pub open spec fn records(s: SegmentView, file: Seq<u8>, max: u32) -> Seq<RecordView> {
    scan(file, max, s.base).records
}

/// The records of a reading that has taken `taken` bytes: as many as fit in
/// `max_bytes`, and one in any case.
pub open spec fn fit(rs: Seq<RecordView>, max_bytes: u64, taken: nat, any: bool) -> Seq<RecordView>
    decreases rs.len(),
{
    if rs.len() == 0 || (any && taken + encoded_size(rs[0]) > max_bytes) {
        Seq::empty()
    } else if taken + encoded_size(rs[0]) >= max_bytes {
        seq![rs[0]]
    } else {
        seq![rs[0]] + fit(rs.skip(1), max_bytes, taken + encoded_size(rs[0]), true)
    }
}

/// The records at the front of `rs` that one read of `max_bytes` gives.
pub open spec fn within(rs: Seq<RecordView>, max_bytes: u64) -> Seq<RecordView> {
    fit(rs, max_bytes, 0, false)
}

/// A read gives a run of records from the front: at least one if there is one;
/// more than one only if they fit; and it stops only where one more would not.
pub proof fn law_within(rs: Seq<RecordView>, max_bytes: u64)
    ensures
        ({
            let got = within(rs, max_bytes);
            &&& got.len() <= rs.len()
            &&& got == rs.take(got.len() as int)
            &&& rs.len() > 0 ==> got.len() >= 1
            &&& got.len() > 1 ==> total(got) <= max_bytes
            &&& got.len() < rs.len() && got.len() > 0 ==> total(rs.take(got.len() + 1int)) > max_bytes
        }),
{
    lemma_fit(rs, max_bytes, 0, false);
}

proof fn lemma_fit(rs: Seq<RecordView>, max_bytes: u64, taken: nat, any: bool)
    ensures
        ({
            let got = fit(rs, max_bytes, taken, any);
            &&& got.len() <= rs.len()
            &&& got == rs.take(got.len() as int)
            &&& rs.len() > 0 && !any ==> got.len() >= 1
            &&& got.len() > (if any {
                0int
            } else {
                1int
            }) ==> taken + total(got) <= max_bytes
            &&& got.len() < rs.len() ==> (got.len() == 0 && any || got.len() > 0) && taken + total(
                rs.take(got.len() + 1int),
            ) > max_bytes
        }),
    decreases rs.len(),
{
    let got = fit(rs, max_bytes, taken, any);
    if rs.len() == 0 {
        assert(got =~= rs.take(0));
    } else {
        let first = encoded_size(rs[0]);
        lemma_total_first(rs.take(1));
        assert(rs.take(1).skip(1) =~= Seq::empty());
        if any && taken + first > max_bytes {
            assert(got =~= rs.take(0));
        } else if taken + first >= max_bytes {
            assert(got =~= rs.take(1));
            if rs.len() > 1 {
                lemma_total_first(rs.take(2));
                lemma_total_first(rs.take(2).skip(1));
                assert(rs.take(2).skip(1) =~= seq![rs[1]]);
            }
        } else {
            let tail = rs.skip(1);
            let more = fit(tail, max_bytes, taken + first, true);
            lemma_fit(tail, max_bytes, taken + first, true);
            assert(got =~= rs.take(got.len() as int));
            lemma_total_first(got);
            assert(got.skip(1) =~= more);
            if got.len() < rs.len() {
                let longer = rs.take(got.len() + 1int);
                lemma_total_first(longer);
                assert(longer.skip(1) =~= tail.take(more.len() + 1int));
            }
        }
    }
}

/// A frame cut short is incomplete, wherever the cut is.
pub proof fn lemma_decoding_cut(buf: Seq<u8>, max: u32, cut: int)
    requires
        decoding(buf, max) is Record,
        0 <= cut < decoding(buf, max)->consumed,
    ensures
        decoding(buf.take(cut), max) == Found::Incomplete,
{
    reveal(decoding);
    lemma_consumed(buf, max);
    if cut >= 4 {
        assert(buf.take(cut).take(4) =~= buf.take(4));
    }
}

/// A file that ends in the middle of its records: the scan finds the records
/// that are whole.
pub proof fn law_scan_cut(buf: Seq<u8>, max: u32, next: nat, cut: int, k: int)
    requires
        0 <= k <= scan(buf, max, next).records.len(),
        total(scan(buf, max, next).records.take(k)) <= cut <= buf.len(),
        k < scan(buf, max, next).records.len() ==> cut < total(
            scan(buf, max, next).records.take(k + 1),
        ),
        k == scan(buf, max, next).records.len() ==> cut == total(scan(buf, max, next).records),
    ensures
        scan(buf.take(cut), max, next).records == scan(buf, max, next).records.take(k),
        !(scan(buf.take(cut), max, next).stop is Gap),
{
    let s = scan(buf, max, next);
    let at = total(s.records.take(k)) as int;
    lemma_scan_split(buf, max, next, k);
    let front = buf.take(at);
    let tail = buf.take(cut).skip(at);
    assert(buf.take(cut) =~= front + tail);
    law_scan_prefix(front, tail, max, next);
    let rest = buf.skip(at);
    assert(tail =~= rest.take(cut - at));
    if k < s.records.len() {
        lemma_consumed(rest, max);
        assert(s.records.take(k + 1).drop_last() =~= s.records.take(k));
        let t = scan(rest, max, (next + k) as nat);
        assert(t.records[0] == s.records[k]);
        lemma_decoding_cut(rest, max, cut - at);
    } else {
        assert(s.records.take(k) =~= s.records);
        assert(tail =~= Seq::empty());
        lemma_decoding_empty(max);
    }
    assert(s.records.take(k) + Seq::<RecordView>::empty() =~= s.records.take(k));
}

/// A file in which one byte of a record was changed, behind the record's length
/// field: the scan finds the records before it, and that the next is bad.
pub proof fn law_scan_changed(buf: Seq<u8>, max: u32, next: nat, k: int, i: int, b: u8)
    requires
        0 <= k < scan(buf, max, next).records.len(),
        total(scan(buf, max, next).records.take(k)) + 4 <= i < total(
            scan(buf, max, next).records.take(k + 1),
        ),
        buf[i] != b,
    ensures
        scan(buf.update(i, b), max, next).records == scan(buf, max, next).records.take(k),
        scan(buf.update(i, b), max, next).stop is Bad,
{
    let s = scan(buf, max, next);
    let at = total(s.records.take(k)) as int;
    lemma_scan_split(buf, max, next, k);
    lemma_scan_split(buf, max, next, k + 1);
    let front = buf.take(at);
    let rest = buf.skip(at);
    let bad = rest.update(i - at, b);
    assert(buf.update(i, b) =~= front + bad);
    law_scan_prefix(front, bad, max, next);
    lemma_consumed(rest, max);
    assert(s.records.take(k + 1).drop_last() =~= s.records.take(k));
    let t = scan(rest, max, (next + k) as nat);
    assert(t.records[0] == s.records[k]);
    law_record_changed(rest, max, i - at, b);
    assert(s.records.take(k) + Seq::<RecordView>::empty() =~= s.records.take(k));
}

proof fn lemma_entries_advance(
    s: SegmentView,
    rs: Seq<RecordView>,
    r: RecordView,
    interval: u64,
)
    requires
        entries_point(s.entries, rs),
        s.next == s.base + rs.len(),
        s.size == total(rs),
        s.size <= u32::MAX,
        rs.len() <= u32::MAX,
    ensures
        entries_point(advance(s, r, interval, true).entries, rs.push(r)),
{
    let es = advance(s, r, interval, true).entries;
    let longer = rs.push(r);
    assert forall|i: int| 0 <= i < es.len() implies (#[trigger] es[i]).0 <= longer.len()
        && es[i].1 == total(longer.take(es[i].0 as int)) by {
        if i < s.entries.len() {
            assert(es[i] == s.entries[i]);
            assert(longer.take(es[i].0 as int) =~= rs.take(es[i].0 as int));
        } else {
            assert(longer.take(rs.len() as int) =~= rs);
        }
    }
}

/// The records of a segment that a scan builds up from nothing.
pub proof fn lemma_built(base: nat, rs: Seq<RecordView>, interval: u64)
    requires
        total(rs) <= u32::MAX,
        32 * rs.len() <= total(rs),
        interval > 0,
    ensures
        ({
            let s = advance_all(empty_segment(base), rs, interval, true);
            &&& s.base == base
            &&& s.next == base + rs.len()
            &&& s.size == total(rs)
            &&& entries_point(s.entries, rs)
        }),
    decreases rs.len(),
{
    if rs.len() > 0 {
        let head = rs.drop_last();
        lemma_sizes(head);
        lemma_built(base, head, interval);
        let before = advance_all(empty_segment(base), head, interval, true);
        lemma_entries_advance(before, head, rs.last(), interval);
        assert(head.push(rs.last()) =~= rs);
    }
}

/// A segment that a scan builds up from nothing is consistent.
pub proof fn lemma_built_ok(base: nat, rs: Seq<RecordView>, interval: u64)
    requires
        total(rs) <= u32::MAX,
        base + rs.len() <= u64::MAX,
        interval > 0,
    ensures
        segment_ok(advance_all(empty_segment(base), rs, interval, true)),
    decreases rs.len(),
{
    if rs.len() > 0 {
        let head = rs.drop_last();
        lemma_sizes(head);
        lemma_built_ok(base, head, interval);
        lemma_advance_size(empty_segment(base), head, interval, true);
        let before = advance_all(empty_segment(base), head, interval, true);
        lemma_advance_ok(before, rs.last(), interval, true);
    }
}

pub proof fn lemma_sizes(rs: Seq<RecordView>)
    ensures
        32 * rs.len() <= total(rs),
    decreases rs.len(),
{
    if rs.len() > 0 {
        lemma_sizes(rs.drop_last());
    }
}

proof fn lemma_scan_push(file: Seq<u8>, r: RecordView, max: u32, base: nat)
    requires
        scan(file, max, base).stop is Clean,
        r.offset == base + scan(file, max, base).records.len(),
        storable(r, max),
    ensures
        scan(file + encoding(r), max, base) == (Scan {
            records: scan(file, max, base).records.push(r),
            stop: Stop::Clean,
        }),
{
    let rs = scan(file, max, base).records;
    law_scan_prefix(file, encoding(r), max, base);
    let one = seq![r];
    assert(in_row(one, r.offset as nat, max));
    law_scan_intact(one, max, r.offset as nat);
    assert(one.drop_last() =~= Seq::empty());
    assert(content(one) == content(one.drop_last()) + encoding(one.last()));
    assert(content(one) =~= encoding(r));
    assert(rs + one =~= rs.push(r));
}

/// Appending to a segment and to its file: the file goes on holding what the
/// segment says, with the record behind the others.
pub proof fn law_append_holds(
    s: SegmentView,
    file: Seq<u8>,
    r: RecordView,
    interval: u64,
    max: u32,
)
    requires
        holds(s, file, max),
        r.offset == s.next,
        storable(r, max),
        s.size <= u32::MAX,
        s.next - s.base <= u32::MAX,
    ensures
        holds(advance(s, r, interval, true), file + encoding(r), max),
        records(advance(s, r, interval, true), file + encoding(r), max) == records(
            s,
            file,
            max,
        ).push(r),
{
    let old_rs = records(s, file, max);
    let t = advance(s, r, interval, true);
    lemma_scan_push(file, r, max, s.base);
    lemma_body_len(r);
    lemma_scan_bounds(file, max, s.base);
    lemma_entries_advance(s, old_rs, r, interval);
}

/// Recovering the newest segment always succeeds, and what the file keeps holds
/// what the recovered segment says.
pub proof fn law_recover_holds(base: nat, log: Seq<u8>, index: Option<Seq<u8>>, config: LogConfig)
    requires
        config.valid(),
        log.len() <= u32::MAX,
    ensures
        recovered(base, log, index, config, true) is Ok,
        ({
            let s = recovered(base, log, index, config, true)->Ok_0;
            &&& s.base == base
            &&& s.size <= log.len()
            &&& holds(s, log.take(s.size as int), config.max_record_bytes)
            &&& records(s, log.take(s.size as int), config.max_record_bytes) == scan(
                log,
                config.max_record_bytes,
                base,
            ).records
        }),
{
    let max = config.max_record_bytes;
    let interval = config.index_interval_bytes;
    let found = scan(log, max, base);
    assert(log.skip(0) =~= log);
    lemma_scan_bounds(log, max, base);
    lemma_built(base, found.records, interval);
    let n = found.records.len() as int;
    lemma_scan_split(log, max, base, n);
    assert(found.records.take(n) =~= found.records);
}

/// A crash that leaves only part of what was written to the newest segment:
/// recovery gives exactly the records that are whole, and cuts the rest off.
pub proof fn law_recover_cut(
    s: SegmentView,
    file: Seq<u8>,
    index: Option<Seq<u8>>,
    config: LogConfig,
    cut: int,
    k: int,
)
    requires
        config.valid(),
        holds(s, file, config.max_record_bytes),
        0 <= k <= records(s, file, config.max_record_bytes).len(),
        total(records(s, file, config.max_record_bytes).take(k)) <= cut <= file.len(),
        k < records(s, file, config.max_record_bytes).len() ==> cut < total(
            records(s, file, config.max_record_bytes).take(k + 1),
        ),
    ensures
        recovered(s.base, file.take(cut), index, config, true) == Ok::<SegmentView, StorageFault>(
            advance_all(
                empty_segment(s.base),
                records(s, file, config.max_record_bytes).take(k),
                config.index_interval_bytes,
                true,
            ),
        ),
{
    let max = config.max_record_bytes;
    lemma_scan_bounds(file, max, s.base);
    if k == records(s, file, max).len() {
        assert(records(s, file, max).take(k) =~= records(s, file, max));
    }
    law_scan_cut(file, max, s.base, cut, k);
    assert(file.take(cut).skip(0) =~= file.take(cut));
}

/// Whatever follows the intact records of the newest segment, recovery keeps
/// the records, with those behind them that continue them, and cuts the rest
/// off.
pub proof fn law_recover_garbage(
    s: SegmentView,
    file: Seq<u8>,
    garbage: Seq<u8>,
    index: Option<Seq<u8>>,
    config: LogConfig,
)
    requires
        holds(s, file, config.max_record_bytes),
    ensures
        recovered(s.base, file + garbage, index, config, true) == Ok::<SegmentView, StorageFault>(
            advance_all(
                empty_segment(s.base),
                records(s, file, config.max_record_bytes) + scan(
                    garbage,
                    config.max_record_bytes,
                    s.next,
                ).records,
                config.index_interval_bytes,
                true,
            ),
        ),
{
    law_scan_prefix(file, garbage, config.max_record_bytes, s.base);
    let all = file + garbage;
    assert(all.skip(0) =~= all);
}

/// A record that does not continue the newest segment marks the end of it:
/// recovery keeps exactly the records before it.
pub proof fn law_recover_gap(
    s: SegmentView,
    file: Seq<u8>,
    stray: RecordView,
    rest: Seq<u8>,
    index: Option<Seq<u8>>,
    config: LogConfig,
)
    requires
        holds(s, file, config.max_record_bytes),
        storable(stray, config.max_record_bytes),
        stray.offset != s.next,
    ensures
        recovered(s.base, file + (encoding(stray) + rest), index, config, true) == Ok::<
            SegmentView,
            StorageFault,
        >(
            advance_all(
                empty_segment(s.base),
                records(s, file, config.max_record_bytes),
                config.index_interval_bytes,
                true,
            ),
        ),
{
    let max = config.max_record_bytes;
    let garbage = encoding(stray) + rest;
    law_recover_garbage(s, file, garbage, index, config);
    law_record_roundtrip(stray, rest, max);
    let none = scan(garbage, max, s.next).records;
    assert(records(s, file, max) + none =~= records(s, file, max));
}

/// A segment in whose file one byte was changed, behind a record's length field:
/// where it is the newest, recovery keeps exactly the records before; where it
/// was rolled and has no index to start from, recovery reports corruption.
pub proof fn law_recover_changed(
    s: SegmentView,
    file: Seq<u8>,
    index: Option<Seq<u8>>,
    config: LogConfig,
    k: int,
    i: int,
    b: u8,
)
    requires
        holds(s, file, config.max_record_bytes),
        0 <= k < records(s, file, config.max_record_bytes).len(),
        total(records(s, file, config.max_record_bytes).take(k)) + 4 <= i < total(
            records(s, file, config.max_record_bytes).take(k + 1),
        ),
        file[i] != b,
    ensures
        recovered(s.base, file.update(i, b), index, config, true) == Ok::<
            SegmentView,
            StorageFault,
        >(
            advance_all(
                empty_segment(s.base),
                records(s, file, config.max_record_bytes).take(k),
                config.index_interval_bytes,
                true,
            ),
        ),
        recovered(s.base, file.update(i, b), None, config, false) matches Err(e) && e is Corrupt,
{
    law_scan_changed(file, config.max_record_bytes, s.base, k, i, b);
    let bad = file.update(i, b);
    assert(bad.skip(0) =~= bad);
}

/// Reopening a rolled segment whose files hold what it says gives the segment
/// back, index and all, and builds no index anew.
pub proof fn law_reopen_rolled(s: SegmentView, file: Seq<u8>, config: LogConfig)
    requires
        config.valid(),
        holds(s, file, config.max_record_bytes),
        rising(s.entries),
        s.since == s.size - (if s.entries.len() == 0 {
            0
        } else {
            s.entries.last().1 as int
        }),
    ensures
        recovered(s.base, file, Some(entries_bytes(s.entries)), config, false) == Ok::<
            SegmentView,
            StorageFault,
        >(s),
        !recovery_start(s.base, file.len(), Some(entries_bytes(s.entries)), false).1,
{
    let max = config.max_record_bytes;
    law_index_roundtrip(s.entries);
    let rs = records(s, file, max);
    lemma_scan_bounds(file, max, s.base);
    let (start, rebuild) = recovery_start(
        s.base,
        file.len(),
        Some(entries_bytes(s.entries)),
        false,
    );
    if s.entries.len() == 0 {
        assert(rs.take(0) =~= Seq::empty());
        assert(s.entries =~= Seq::empty());
    } else {
        assert(s.entries.last() == s.entries[s.entries.len() - 1]);
        let front = rs.take(s.entries.last().0 as int);
        lemma_sizes(front);
        lemma_total_add(front, rs.skip(s.entries.last().0 as int));
        assert(front + rs.skip(s.entries.last().0 as int) =~= rs);
    }
    let k = start.next - s.base;
    assert(start.size == total(rs.take(k)));
    lemma_scan_split(file, max, s.base, k);
    let tail = rs.skip(k);
    lemma_plain(start, tail, config.index_interval_bytes);
    lemma_total_add(rs.take(k), tail);
    assert(rs.take(k) + tail =~= rs);
    assert(start.entries =~= s.entries);
}

proof fn lemma_plain(s: SegmentView, rs: Seq<RecordView>, interval: u64)
    ensures
        advance_all(s, rs, interval, false) == (SegmentView {
            base: s.base,
            entries: s.entries,
            next: s.next + rs.len(),
            size: s.size + total(rs),
            since: s.since + total(rs),
        }),
    decreases rs.len(),
{
    if rs.len() > 0 {
        lemma_plain(s, rs.drop_last(), interval);
    }
}

/// Recovering rolled files never cuts: it gives a segment only where the file
/// is whole behind the place where the scan starts.
pub proof fn law_rolled_is_whole(base: nat, log: Seq<u8>, index: Option<Seq<u8>>, config: LogConfig)
    requires
        recovered(base, log, index, config, false) is Ok,
    ensures
        recovered(base, log, index, config, false)->Ok_0.size == log.len(),
{
    let (start, rebuild) = recovery_start(base, log.len(), index, false);
    let buf = log.skip(start.size as int);
    let found = scan(buf, config.max_record_bytes, start.next);
    lemma_scan_bounds(buf, config.max_record_bytes, start.next);
    lemma_advance_size(start, found.records, config.index_interval_bytes, rebuild);
}

pub proof fn lemma_advance_size(
    s: SegmentView,
    rs: Seq<RecordView>,
    interval: u64,
    indexing: bool,
)
    ensures
        ({
            let t = advance_all(s, rs, interval, indexing);
            &&& t.base == s.base
            &&& t.size == s.size + total(rs)
            &&& t.next == s.next + rs.len()
        }),
    decreases rs.len(),
{
    if rs.len() > 0 {
        lemma_advance_size(s, rs.drop_last(), interval, indexing);
    }
}

proof fn lemma_floor(s: SegmentView, rs: Seq<RecordView>, target: u32)
    requires
        entries_point(s.entries, rs),
        target <= rs.len(),
    ensures
        match floor_entry(s.entries, target) {
            Some(e) => e.0 <= target && e.1 == total(rs.take(e.0 as int)),
            None => true,
        },
    decreases s.entries.len(),
{
    if s.entries.len() > 0 {
        let last = s.entries.len() - 1;
        assert(s.entries[last] == s.entries.last());
        if s.entries.last().0 > target {
            let shorter = SegmentView { entries: s.entries.drop_last(), ..s };
            assert forall|i: int| 0 <= i < shorter.entries.len() implies (
            #[trigger] shorter.entries[i]).0 <= rs.len() && shorter.entries[i].1 == total(
                rs.take(shorter.entries[i].0 as int),
            ) by {
                assert(shorter.entries[i] == s.entries[i]);
            }
            lemma_floor(shorter, rs, target);
        }
    }
}

#[verifier::spinoff_prover]
#[verifier::rlimit(40)]
proof fn lemma_collect(
    buf: Seq<u8>,
    at: nat,
    next: nat,
    offset: u64,
    max_bytes: u64,
    taken: nat,
    any: bool,
    max: u32,
)
    requires
        scan(buf, max, next).stop is Clean,
        offset <= next + scan(buf, max, next).records.len(),
        any ==> offset <= next,
    ensures
        collect(buf, at, offset, max_bytes, taken, any, max) == Ok::<
            Seq<RecordView>,
            (nat, Seq<char>),
        >(
            fit(
                scan(buf, max, next).records.skip(
                    if offset <= next {
                        0
                    } else {
                        offset - next
                    },
                ),
                max_bytes,
                taken,
                any,
            ),
        ),
    decreases buf.len(),
{
    lemma_consumed(buf, max);
    let rs = scan(buf, max, next).records;
    assert(rs.skip(0) =~= rs);
    if let Found::Record { record, consumed } = decoding(buf, max) {
        let tail = buf.skip(consumed as int);
        let more = scan(tail, max, next + 1).records;
        assert(rs =~= seq![record] + more);
        assert(rs.skip(1) =~= more);
        assert(more.skip(0) =~= more);
        if record.offset < offset {
            lemma_collect(tail, at + consumed, next + 1, offset, max_bytes, taken, any, max);
            assert(rs.skip(offset - next) =~= more.skip(offset - next - 1));
        } else if !(any && taken + consumed > max_bytes) && taken + consumed < max_bytes {
            lemma_collect(
                tail,
                at + consumed,
                next + 1,
                offset,
                max_bytes,
                taken + consumed,
                true,
                max,
            );
        }
    } else {
        assert(fit(rs.skip(0), max_bytes, taken, any) =~= Seq::empty());
        assert(rs.skip(0) =~= rs);
    }
}

/// Reading a segment whose file holds what it says gives the records at the
/// offset and behind it, as many as one read may take.
pub proof fn law_read_intact(
    s: SegmentView,
    file: Seq<u8>,
    offset: u64,
    max_bytes: u64,
    max: u32,
)
    requires
        holds(s, file, max),
        segment_ok(s),
        s.base <= offset < s.next,
    ensures
        read_position(s, offset as nat) <= s.size,
        collect(
            file.skip(read_position(s, offset as nat) as int),
            read_position(s, offset as nat),
            offset,
            max_bytes,
            0,
            false,
            max,
        ) == Ok::<Seq<RecordView>, (nat, Seq<char>)>(
            within(records(s, file, max).skip(offset - s.base), max_bytes),
        ),
{
    let rs = records(s, file, max);
    let target = (offset - s.base) as u32;
    lemma_floor(s, rs, target);
    let k: int = match floor_entry(s.entries, target) {
        Some(e) => e.0 as int,
        None => 0,
    };
    assert(rs.take(0) =~= Seq::empty());
    let at = read_position(s, offset as nat);
    assert(at == total(rs.take(k)));
    lemma_scan_split(file, max, s.base, k);
    lemma_collect(
        file.skip(at as int),
        at,
        (s.base + k) as nat,
        offset,
        max_bytes,
        0,
        false,
        max,
    );
    assert(rs.skip(k).skip(offset - s.base - k) =~= rs.skip(offset - s.base));
}

proof fn lemma_collect_bad(
    buf: Seq<u8>,
    at: nat,
    next: nat,
    offset: u64,
    max_bytes: u64,
    max: u32,
)
    requires
        scan(buf, max, next).stop is Bad,
        offset == next + scan(buf, max, next).records.len(),
    ensures
        collect(buf, at, offset, max_bytes, 0, false, max) is Err,
    decreases buf.len(),
{
    lemma_consumed(buf, max);
    if let Found::Record { record, consumed } = decoding(buf, max) {
        let tail = buf.skip(consumed as int);
        lemma_collect_bad(tail, at + consumed, next + 1, offset, max_bytes, max);
    }
}

/// Reading a record of which one byte was changed, behind its length field, is an
/// error: it is never handed out.
pub proof fn law_read_changed(
    s: SegmentView,
    file: Seq<u8>,
    offset: u64,
    max_bytes: u64,
    max: u32,
    i: int,
    b: u8,
)
    requires
        holds(s, file, max),
        segment_ok(s),
        s.base <= offset < s.next,
        total(records(s, file, max).take(offset - s.base)) + 4 <= i < total(
            records(s, file, max).take(offset - s.base + 1),
        ),
        file[i] != b,
    ensures
        collect(
            file.update(i, b).skip(read_position(s, offset as nat) as int),
            read_position(s, offset as nat),
            offset,
            max_bytes,
            0,
            false,
            max,
        ) is Err,
{
    let rs = records(s, file, max);
    let target = (offset - s.base) as u32;
    lemma_floor(s, rs, target);
    let k: int = match floor_entry(s.entries, target) {
        Some(e) => e.0 as int,
        None => 0,
    };
    assert(rs.take(0) =~= Seq::empty());
    let at = read_position(s, offset as nat);
    assert(at == total(rs.take(k)));
    lemma_scan_split(file, max, s.base, k);
    let j = offset - s.base - k;
    let tail = rs.skip(k);
    lemma_total_add(rs.take(k), tail.take(j));
    assert(rs.take(k) + tail.take(j) =~= rs.take(k + j));
    lemma_total_add(rs.take(k), tail.take(j + 1));
    assert(rs.take(k) + tail.take(j + 1) =~= rs.take(k + j + 1));
    let rest = file.skip(at as int);
    lemma_scan_split(file, max, s.base, k + j + 1);
    law_scan_changed(rest, max, (s.base + k) as nat, j, i - at, b);
    assert(file.update(i, b).skip(at as int) =~= rest.update(i - at, b));
    lemma_collect_bad(rest.update(i - at, b), at, (s.base + k) as nat, offset, max_bytes, max);
}

proof fn lemma_locate(buf: Seq<u8>, at: nat, next: nat, offset: u64, max: u32)
    requires
        scan(buf, max, next).stop is Clean,
        next <= offset <= next + scan(buf, max, next).records.len(),
    ensures
        locate(buf, at, offset, max) == Ok::<nat, (nat, Seq<char>)>(
            at + total(scan(buf, max, next).records.take(offset - next)),
        ),
    decreases buf.len(),
{
    lemma_consumed(buf, max);
    let rs = scan(buf, max, next).records;
    assert(rs.take(0) =~= Seq::empty());
    if let Found::Record { record, consumed } = decoding(buf, max) {
        if record.offset < offset {
            let tail = buf.skip(consumed as int);
            let more = scan(tail, max, next + 1).records;
            assert(rs =~= seq![record] + more);
            lemma_locate(tail, at + consumed, next + 1, offset, max);
            lemma_total_first(rs.take(offset - next));
            assert(rs.take(offset - next).skip(1) =~= more.take(offset - next - 1));
        }
    }
}

/// The position of an offset in a segment whose file holds what it says: behind
/// the records before the offset.
pub proof fn law_position_intact(s: SegmentView, file: Seq<u8>, offset: u64, max: u32)
    requires
        holds(s, file, max),
        segment_ok(s),
        s.base <= offset <= s.next,
    ensures
        read_position(s, offset as nat) <= s.size,
        locate(
            file.skip(read_position(s, offset as nat) as int),
            read_position(s, offset as nat),
            offset,
            max,
        ) == Ok::<nat, (nat, Seq<char>)>(total(records(s, file, max).take(offset - s.base))),
{
    let rs = records(s, file, max);
    let target = (offset - s.base) as u32;
    lemma_floor(s, rs, target);
    let k: int = match floor_entry(s.entries, target) {
        Some(e) => e.0 as int,
        None => 0,
    };
    assert(rs.take(0) =~= Seq::empty());
    let at = read_position(s, offset as nat);
    assert(at == total(rs.take(k)));
    lemma_scan_split(file, max, s.base, k);
    lemma_locate(file.skip(at as int), at, (s.base + k) as nat, offset, max);
    let n = offset - s.base;
    lemma_total_add(rs.take(k), rs.skip(k).take(n - k));
    assert(rs.take(k) + rs.skip(k).take(n - k) =~= rs.take(n));
}

} // verus!
