//! What of a log is on stable storage, and that a crash does not take it away.

use super::disk::{
    all_records, apply, apply_all, files_of, kept, kept_segment, law_append, law_crash, law_offsets,
    law_survivors, law_truncate, lemma_bases_rise, lemma_records_at, lemma_records_frame,
    lemma_records_prefix, lemma_rolled_kept, lemma_rolled_ok, lemma_segment_written,
    lemma_since_right, lemma_total_rises, lemma_written_kept, lemma_written_ok, log_records,
    newest_file, write_op, Disk,
};
use super::image::{
    law_recover_cut, law_reopen_rolled, lemma_advance_size, lemma_built, lemma_built_ok,
    lemma_sizes, records,
};
use super::index::{entries_bytes, law_index_roundtrip};
use super::log::{
    append_ops, appended, before, chained, flushed, lemma_segment_at, log_ok, must_flush, must_roll,
    next_of, open_ops, opened, remove_ops, reopen_ops, rolled, roomy, segment_ops, start_of,
    truncate_ops, truncated, truncation_segment, written, LogView, Op, MAX_OFFSET,
};
use super::record::{encoded_size, RecordView};
use super::scan::{lemma_scan_bounds, lemma_scan_split, total};
use super::segment::{advance_all, empty_segment, segment_ok};
use vstd::prelude::*;

verus! {

/// How many bytes of each log file are on stable storage after an operation on
/// `d`, where `m` were before.
pub open spec fn forced(d: Disk, m: Map<nat, nat>, op: Op) -> Map<nat, nat> {
    match op {
        Op::Create { base } => m.insert(base, 0),
        Op::Append { base, log, index } => m,
        Op::Sync { base } => m.insert(base, d.logs[base].len()),
        Op::Truncate { base, len } => m.insert(base, len),
        Op::Reindex { base, index } => m,
        Op::Remove { base } => m.remove(base),
    }
}

/// How many bytes of each log file are on stable storage after operations in
/// order.
pub open spec fn forced_all(d: Disk, m: Map<nat, nat>, ops: Seq<Op>) -> Map<nat, nat>
    decreases ops.len(),
{
    if ops.len() == 0 {
        m
    } else {
        forced(apply_all(d, ops.drop_last()), forced_all(d, m, ops.drop_last()), ops.last())
    }
}

/// How many records of the newest segment the log counts as durable.
pub open spec fn durable_count(v: LogView) -> int {
    let base = v.segments.last().base;
    if v.durable is Some && v.durable->0 >= base {
        v.durable->0 + 1 - base
    } else {
        0
    }
}

/// What a log counts as durable is on stable storage: the older segments whole,
/// and of the newest the records up to the durable offset.
pub open spec fn secured(v: LogView, d: Disk, m: Map<nat, nat>) -> bool {
    let s = v.segments.last();
    let rs = records(s, d.logs[s.base], v.config.max_record_bytes);
    &&& forall|i: int|
        0 <= i < v.segments.len() - 1 ==> m[(#[trigger] v.segments[i]).base] >= v.segments[i].size
    &&& v.durable is Some ==> v.durable->0 < next_of(v)
    &&& total(rs.take(durable_count(v))) <= m[s.base]
}

/// The newest segment's records, by what the log says of it.
proof fn lemma_newest(v: LogView, d: Disk)
    requires
        log_ok(v),
        kept(v, d),
    ensures
        ({
            let s = v.segments.last();
            let rs = records(s, d.logs[s.base], v.config.max_record_bytes);
            &&& kept_segment(s, d, v.config.max_record_bytes)
            &&& segment_ok(s)
            &&& rs.len() == s.next - s.base
            &&& total(rs) == s.size
            &&& s.size == d.logs[s.base].len()
        }),
{
    let s = v.segments.last();
    assert(s == v.segments[v.segments.len() - 1]);
    lemma_scan_bounds(d.logs[s.base], v.config.max_record_bytes, s.base);
}

/// A log whose files are on stable storage as they are — one that was just
/// opened — has secured what it counts as durable.
pub proof fn law_opened_secured(v: LogView, d: Disk, m: Map<nat, nat>)
    requires
        log_ok(v),
        kept(v, d),
        v.durable == before(next_of(v)),
        forall|i: int|
            0 <= i < v.segments.len() ==> m[(#[trigger] v.segments[i]).base]
                == d.logs[v.segments[i].base].len(),
    ensures
        secured(v, d, m),
{
    lemma_newest(v, d);
    let n = v.segments.len() as int;
    let s = v.segments.last();
    assert(s == v.segments[n - 1]);
    let rs = records(s, d.logs[s.base], v.config.max_record_bytes);
    lemma_total_rises(rs, durable_count(v), rs.len() as int);
    assert(rs.take(rs.len() as int) =~= rs);
    assert forall|i: int| 0 <= i < n - 1 implies m[(#[trigger] v.segments[i]).base]
        >= v.segments[i].size by {
        assert(kept_segment(v.segments[i], d, v.config.max_record_bytes));
    }
}

/// A flush secures the whole log.
pub proof fn law_flush_secures(v: LogView, d: Disk, m: Map<nat, nat>, now_ms: u64)
    requires
        log_ok(v),
        kept(v, d),
        secured(v, d, m),
    ensures
        secured(
            flushed(v, now_ms),
            d,
            forced(d, m, Op::Sync { base: v.segments.last().base }),
        ),
        flushed(v, now_ms).durable == before(next_of(v)),
{
    lemma_newest(v, d);
    let w = flushed(v, now_ms);
    let n = v.segments.len() as int;
    let s = v.segments.last();
    let e = forced(d, m, Op::Sync { base: s.base });
    let rs = records(s, d.logs[s.base], v.config.max_record_bytes);
    lemma_total_rises(rs, durable_count(w), rs.len() as int);
    assert(rs.take(rs.len() as int) =~= rs);
    assert forall|i: int| 0 <= i < w.segments.len() - 1 implies e[(#[trigger] w.segments[i]).base]
        >= w.segments[i].size by {
        lemma_bases_rise(v.segments, i, n - 1);
    }
}

/// Rolling forces the segment that it closes.
proof fn lemma_rolled_secured(v: LogView, d: Disk, m: Map<nat, nat>, now_ms: u64)
    requires
        log_ok(v),
        kept(v, d),
        secured(v, d, m),
        v.segments.last().size > 0,
    ensures
        ({
            let base = next_of(v);
            let m1 = forced(d, m, Op::Sync { base: v.segments.last().base });
            secured(
                rolled(v, now_ms),
                apply(d, Op::Create { base }),
                forced(d, m1, Op::Create { base }),
            )
        }),
{
    lemma_newest(v, d);
    let w = rolled(v, now_ms);
    let n = v.segments.len() as int;
    let base = next_of(v);
    let s = v.segments.last();
    let m1 = forced(d, m, Op::Sync { base: s.base });
    let m2 = forced(d, m1, Op::Create { base });
    let e = apply(d, Op::Create { base });
    assert(w.segments.last() == empty_segment(base));
    assert(durable_count(w) == 0);
    let rs = records(empty_segment(base), e.logs[base], v.config.max_record_bytes);
    assert(rs.take(0) =~= Seq::empty());
    assert forall|i: int| 0 <= i < w.segments.len() - 1 implies m2[(#[trigger] w.segments[i]).base]
        >= w.segments[i].size by {
        assert(w.segments[i] == v.segments[i]);
        if i < n - 1 {
            lemma_bases_rise(v.segments, i, n - 1);
        }
    }
}

/// Writing a record changes nothing of what is secured.
proof fn lemma_written_secured(v: LogView, d: Disk, m: Map<nat, nat>, r: RecordView)
    requires
        log_ok(v),
        kept(v, d),
        secured(v, d, m),
        r.offset == next_of(v),
        encoded_size(r) <= v.config.max_record_bytes,
    ensures
        secured(
            written(v, r),
            apply(d, write_op(v.segments.last(), r, v.config.index_interval_bytes)),
            m,
        ),
{
    lemma_newest(v, d);
    let w = written(v, r);
    let s = v.segments.last();
    let n = v.segments.len() as int;
    lemma_segment_written(s, d, r, v.config);
    let rs = records(s, d.logs[s.base], v.config.max_record_bytes);
    let k = durable_count(v);
    assert(w.segments.last().base == s.base);
    assert(durable_count(w) == k);
    assert(rs.push(r).take(k) =~= rs.take(k));
    assert forall|i: int| 0 <= i < w.segments.len() - 1 implies m[(#[trigger] w.segments[i]).base]
        >= w.segments[i].size by {
        assert(w.segments[i] == v.segments[i]);
    }
}

/// An append keeps secured what was, and what it counts as durable is forced
/// before it says so.
pub proof fn law_append_secures(v: LogView, d: Disk, m: Map<nat, nat>, r: RecordView, now_ms: u64)
    requires
        log_ok(v),
        next_of(v) < MAX_OFFSET,
        kept(v, d),
        secured(v, d, m),
        r.offset == next_of(v),
        encoded_size(r) <= v.config.max_record_bytes,
    ensures
        ({
            let ops = append_ops(v, r, now_ms);
            secured(appended(v, r, now_ms), apply_all(d, ops), forced_all(d, m, ops))
        }),
{
    let s = v.segments.last();
    let rolls = must_roll(v, encoded_size(r));
    let room = roomy(v, r, now_ms);
    let seg = room.segments.last();
    let w = written(room, r);
    let sync_old = Op::Sync { base: s.base };
    let create = Op::Create { base: next_of(v) };
    let write = write_op(seg, r, v.config.index_interval_bytes);
    let sync = Op::Sync { base: seg.base };
    let first = if rolls {
        seq![sync_old, create]
    } else {
        Seq::empty()
    };
    let d1 = if rolls {
        apply(d, create)
    } else {
        d
    };
    let m1 = if rolls {
        forced(d, forced(d, m, sync_old), create)
    } else {
        m
    };
    if rolls {
        lemma_rolled_kept(v, d, now_ms);
        lemma_rolled_ok(v, now_ms);
        lemma_rolled_secured(v, d, m, now_ms);
    }
    lemma_written_kept(room, d1, r);
    lemma_written_secured(room, d1, m1, r);
    let d2 = apply(d1, write);
    reveal_with_fuel(apply_all, 5);
    reveal_with_fuel(forced_all, 5);
    assert(apply_all(d, first) == d1 && forced_all(d, m, first) == m1) by {
        if rolls {
            assert(first.drop_last() =~= seq![sync_old]);
            assert(first.drop_last().drop_last() =~= Seq::empty());
        }
    }
    assert(first.push(write).drop_last() =~= first);
    assert(apply_all(d, first.push(write)) == d2);
    assert(forced_all(d, m, first.push(write)) == m1);
    if must_flush(w.config.fsync, w.dirty, now_ms, w.last_flush_ms) {
        assert(first.push(write).push(sync).drop_last() =~= first.push(write));
        assert(w.segments.last().base == seg.base);
        lemma_written_ok(room, r);
        law_flush_secures(w, d2, m1, now_ms);
    }
}

/// Removing later segments takes nothing from the earlier ones.
proof fn lemma_removed_forced(v: LogView, d: Disk, m: Map<nat, nat>, t: int, n: int)
    requires
        log_ok(v),
        0 <= t < n <= v.segments.len(),
    ensures
        ({
            let e = forced_all(d, m, remove_ops(v.segments, t + 1, n));
            forall|i: int| 0 <= i <= t ==> e[(#[trigger] v.segments[i]).base] == m[v.segments[i].base]
        }),
    decreases n,
{
    if t + 1 < n {
        lemma_removed_forced(v, d, m, t, n - 1);
        let ops = remove_ops(v.segments, t + 1, n);
        assert(ops.drop_last() =~= remove_ops(v.segments, t + 1, n - 1));
        assert forall|i: int| 0 <= i <= t implies #[trigger] v.segments[i].base
            != v.segments[n - 1].base by {
            lemma_bases_rise(v.segments, i, n - 1);
        }
    }
}

/// A truncation keeps secured what it keeps.
pub proof fn law_truncate_secures(v: LogView, d: Disk, m: Map<nat, nat>, new_next: u64)
    requires
        log_ok(v),
        kept(v, d),
        secured(v, d, m),
        start_of(v) <= new_next < next_of(v),
    ensures
        ({
            let t = truncation_segment(v, new_next as nat);
            let w = truncated(v, new_next, d.logs[v.segments[t].base])->Ok_0;
            let ops = truncate_ops(v, w);
            secured(w, apply_all(d, ops), forced_all(d, m, ops))
        }),
{
    law_truncate(v, d, new_next);
    let max = v.config.max_record_bytes;
    let t = truncation_segment(v, new_next as nat);
    if new_next != start_of(v) {
        lemma_segment_at(v.segments, (new_next - 1) as nat);
    }
    let s = v.segments[t];
    let w = truncated(v, new_next, d.logs[s.base])->Ok_0;
    let ops = truncate_ops(v, w);
    let e = apply_all(d, ops);
    reveal_with_fuel(forced_all, 3);
    let last = w.segments.last();
    let removes = remove_ops(v.segments, t + 1, v.segments.len() as int);
    let cut_op = Op::Truncate { base: last.base, len: last.size };
    let index_op = Op::Reindex { base: last.base, index: entries_bytes(last.entries) };
    assert(w.segments.len() == t + 1);
    assert(removes.push(cut_op).drop_last() =~= removes);
    assert(removes.push(cut_op).push(index_op).drop_last() =~= removes.push(cut_op));
    let m1 = forced_all(d, m, removes);
    let m2 = forced_all(d, m, ops);
    assert(m2 == m1.insert(last.base, last.size));
    lemma_removed_forced(v, d, m, t, v.segments.len() as int);
    assert(last == w.segments[t]);
    assert(kept_segment(last, e, max));
    let rs = records(last, e.logs[last.base], max);
    lemma_scan_bounds(e.logs[last.base], max, last.base);
    lemma_total_rises(rs, durable_count(w), rs.len() as int);
    assert(rs.take(rs.len() as int) =~= rs);
    assert forall|i: int| 0 <= i < w.segments.len() - 1 implies m2[(#[trigger] w.segments[i]).base]
        >= w.segments[i].size by {
        assert(w.segments[i] == v.segments[i]);
        lemma_bases_rise(v.segments, i, t);
    }
}

/// The files after a crash that leaves the first `cut` bytes of the newest log
/// file.
pub open spec fn crashed(v: LogView, d: Disk, cut: int) -> Disk {
    let base = v.segments.last().base;
    Disk { logs: d.logs.insert(base, d.logs[base].take(cut)), indexes: d.indexes }
}

/// Opening leaves the files of rolled segments alone.
proof fn lemma_rolled_untouched(v: LogView, d: Disk, n: int)
    requires
        log_ok(v),
        kept(v, d),
        0 <= n < v.segments.len(),
    ensures
        reopen_ops(files_of(v.segments, d).take(n), v.config, v.segments.last().base)
            == Seq::<Op>::empty(),
    decreases n,
{
    let files = files_of(v.segments, d);
    if n > 0 {
        lemma_rolled_untouched(v, d, n - 1);
        let s = v.segments[n - 1];
        assert(kept_segment(s, d, v.config.max_record_bytes));
        assert(segment_ok(s));
        law_reopen_rolled(s, d.logs[s.base], v.config);
        law_index_roundtrip(s.entries);
        lemma_bases_rise(v.segments, n - 1, v.segments.len() - 1);
        assert(files.take(n).drop_last() =~= files.take(n - 1));
        assert(files.take(n).last() == files[n - 1]);
    }
}

/// The files after a crash are those of the log but for the newest log file.
proof fn lemma_crashed_files(v: LogView, d: Disk, cut: int)
    requires
        log_ok(v),
    ensures
        ({
            let files = files_of(v.segments, crashed(v, d, cut));
            let n = v.segments.len() as int;
            &&& files == newest_file(v, d, d.logs[v.segments.last().base].take(cut))
            &&& files.drop_last() == files_of(v.segments, d).take(n - 1)
        }),
{
    let n = v.segments.len() as int;
    let s = v.segments.last();
    let file = d.logs[s.base].take(cut);
    let files = files_of(v.segments, crashed(v, d, cut));
    assert forall|i: int| 0 <= i < n - 1 implies #[trigger] files[i] == newest_file(v, d, file)[i]
        && files[i] == files_of(v.segments, d)[i] by {
        lemma_bases_rise(v.segments, i, n - 1);
    }
    assert(files =~= newest_file(v, d, file));
    assert(files.drop_last() =~= files_of(v.segments, d).take(n - 1));
}

/// What opening after a crash does to the files: the newest are cut to whole
/// records and indexed anew.
proof fn lemma_reopened_files(v: LogView, d: Disk, cut: int, k: int)
    requires
        log_ok(v),
        kept(v, d),
        ({
            let s = v.segments.last();
            let rs = records(s, d.logs[s.base], v.config.max_record_bytes);
            &&& 0 <= k <= rs.len()
            &&& total(rs.take(k)) <= cut <= s.size
            &&& k < rs.len() ==> cut < total(rs.take(k + 1))
        }),
    ensures
        ({
            let s = v.segments.last();
            let rs = records(s, d.logs[s.base], v.config.max_record_bytes);
            let t = advance_all(
                empty_segment(s.base),
                rs.take(k),
                v.config.index_interval_bytes,
                true,
            );
            let after = crashed(v, d, cut);
            let e = apply_all(after, open_ops(files_of(v.segments, after), v.config));
            &&& e.logs == d.logs.insert(s.base, d.logs[s.base].take(total(rs.take(k)) as int))
            &&& e.indexes == d.indexes.insert(s.base, entries_bytes(t.entries))
        }),
{
    let n = v.segments.len() as int;
    let s = v.segments.last();
    let file = d.logs[s.base];
    let rs = records(s, file, v.config.max_record_bytes);
    let t = advance_all(empty_segment(s.base), rs.take(k), v.config.index_interval_bytes, true);
    let after = crashed(v, d, cut);
    let files = files_of(v.segments, after);
    lemma_newest(v, d);
    lemma_crashed_files(v, d, cut);
    lemma_rolled_untouched(v, d, n - 1);
    law_recover_cut(s, file, Some(d.indexes[s.base]), v.config, cut, k);
    lemma_advance_size(empty_segment(s.base), rs.take(k), v.config.index_interval_bytes, true);
    let newest = files.last();
    let ops = segment_ops(newest, v.config, true);
    assert(open_ops(files, v.config) =~= ops);
    let index_op = Op::Reindex { base: s.base, index: entries_bytes(t.entries) };
    let cut_op = Op::Truncate { base: s.base, len: t.size };
    reveal_with_fuel(apply_all, 3);
    assert(seq![index_op].drop_last() =~= Seq::empty());
    assert(seq![index_op].push(cut_op).drop_last() =~= seq![index_op]);
    let e = apply_all(after, ops);
    let at = total(rs.take(k)) as int;
    assert(file.take(cut).take(at) =~= file.take(at));
    assert(e.logs =~= d.logs.insert(s.base, file.take(at)));
    assert(e.indexes =~= d.indexes.insert(s.base, entries_bytes(t.entries)));
}

/// The files of a log whose newest segment lost its records from `k` on.
pub open spec fn shortened(v: LogView, d: Disk, k: int, w: LogView, e: Disk) -> bool {
    let s = v.segments.last();
    let rs = records(s, d.logs[s.base], v.config.max_record_bytes);
    let t = advance_all(empty_segment(s.base), rs.take(k), v.config.index_interval_bytes, true);
    &&& 0 <= k <= rs.len()
    &&& w.config == v.config
    &&& w.segments == v.segments.drop_last().push(t)
    &&& e.logs == d.logs.insert(s.base, d.logs[s.base].take(total(rs.take(k)) as int))
    &&& e.indexes == d.indexes.insert(s.base, entries_bytes(t.entries))
}

proof fn lemma_shortened_kept(v: LogView, d: Disk, k: int, w: LogView, e: Disk)
    requires
        log_ok(v),
        kept(v, d),
        shortened(v, d, k, w, e),
    ensures
        log_ok(w),
        kept(w, e),
        start_of(w) == start_of(v),
        next_of(w) == v.segments.last().base + k,
{
    let max = v.config.max_record_bytes;
    let interval = v.config.index_interval_bytes;
    let n = v.segments.len() as int;
    let s = v.segments.last();
    let file = d.logs[s.base];
    let rs = records(s, file, max);
    let t = advance_all(empty_segment(s.base), rs.take(k), interval, true);
    lemma_newest(v, d);
    lemma_total_rises(rs, k, rs.len() as int);
    assert(rs.take(rs.len() as int) =~= rs);
    lemma_sizes(rs.take(k));
    lemma_built(s.base, rs.take(k), interval);
    lemma_since_right(s.base, rs.take(k), interval);
    lemma_scan_split(file, max, s.base, k);
    lemma_advance_size(empty_segment(s.base), rs.take(k), interval, true);
    lemma_built_ok(s.base, rs.take(k), interval);
    assert(kept_segment(t, e, max));
    assert forall|i: int| 0 <= i < w.segments.len() implies kept_segment(
        #[trigger] w.segments[i],
        e,
        max,
    ) && segment_ok(w.segments[i]) by {
        if i < n - 1 {
            assert(w.segments[i] == v.segments[i]);
            assert(kept_segment(v.segments[i], d, max));
            assert(segment_ok(v.segments[i]));
            lemma_bases_rise(v.segments, i, n - 1);
        }
    }
    assert(w.segments.last() == t);
    assert(chained(w.segments)) by {
        assert forall|i: int, j: int|
            #![trigger w.segments[i], w.segments[j]]
            0 <= i && j == i + 1 && j < w.segments.len() implies w.segments[i].next
            == w.segments[j].base && w.segments[i].base < w.segments[j].base by {
            assert(v.segments[i].next == v.segments[j].base);
        }
    }
    if n > 1 {
        assert(w.segments[0] == v.segments[0]);
    }
}

proof fn lemma_shortened_records(v: LogView, d: Disk, k: int, w: LogView, e: Disk)
    requires
        log_ok(v),
        kept(v, d),
        shortened(v, d, k, w, e),
    ensures
        all_records(w, e) == all_records(v, d).take(v.segments.last().base + k - start_of(v)),
{
    let max = v.config.max_record_bytes;
    let n = v.segments.len() as int;
    let s = v.segments.last();
    let rs = records(s, d.logs[s.base], max);
    let head = v.segments.drop_last();
    lemma_newest(v, d);
    lemma_scan_split(d.logs[s.base], max, s.base, k);
    assert forall|i: int| 0 <= i < head.len() implies d.logs[(#[trigger] head[i]).base]
        == e.logs[head[i].base] by {
        assert(head[i] == v.segments[i]);
        lemma_bases_rise(v.segments, i, n - 1);
    }
    lemma_records_frame(head, d, e, max);
    assert(w.segments.drop_last() =~= head);
    lemma_advance_size(
        empty_segment(s.base),
        rs.take(k),
        v.config.index_interval_bytes,
        true,
    );
    law_offsets(v, d);
    lemma_records_at(v, d, n - 1);
    lemma_records_prefix(v, d, n - 1);
    assert(v.segments.take(n - 1) =~= head);
    assert(all_records(w, e) == log_records(head, d, max) + rs.take(k));
    assert(all_records(w, e) =~= all_records(v, d).take(s.base + k - start_of(v)));
}

/// A crash that leaves only the first `cut` bytes of the newest log file, which
/// hold `k` records whole: the log opens again and is consistent, its files are
/// right again, and it holds all records of the other segments and those `k`.
pub proof fn law_crash_reopens(v: LogView, d: Disk, cut: int, k: int, now_ms: u64)
    requires
        log_ok(v),
        kept(v, d),
        ({
            let s = v.segments.last();
            let rs = records(s, d.logs[s.base], v.config.max_record_bytes);
            &&& 0 <= k <= rs.len()
            &&& total(rs.take(k)) <= cut <= s.size
            &&& k < rs.len() ==> cut < total(rs.take(k + 1))
        }),
    ensures
        ({
            let after = crashed(v, d, cut);
            let files = files_of(v.segments, after);
            let again = opened(files, v.config, now_ms);
            let w = again->Ok_0;
            let e = apply_all(after, open_ops(files, v.config));
            &&& again is Ok
            &&& log_ok(w)
            &&& kept(w, e)
            &&& start_of(w) == start_of(v)
            &&& next_of(w) == v.segments.last().base + k
            &&& next_of(w) <= next_of(v)
            &&& all_records(w, e) == all_records(v, d).take(next_of(w) - start_of(v))
        }),
{
    lemma_newest(v, d);
    lemma_crashed_files(v, d, cut);
    law_crash(v, d, cut, k, now_ms);
    lemma_reopened_files(v, d, cut, k);
    let after = crashed(v, d, cut);
    let files = files_of(v.segments, after);
    let e = apply_all(after, open_ops(files, v.config));
    let w = opened(files, v.config, now_ms)->Ok_0;
    assert(shortened(v, d, k, w, e));
    lemma_shortened_kept(v, d, k, w, e);
    lemma_shortened_records(v, d, k, w, e);
}

/// A crash that tears the last record, wherever in it: the log opens again, ends
/// where that record began, holds every record before it as it was, and appends
/// there.
pub proof fn law_torn_tail(v: LogView, d: Disk, cut: int, now_ms: u64, r: RecordView)
    requires
        log_ok(v),
        kept(v, d),
        ({
            let s = v.segments.last();
            let rs = records(s, d.logs[s.base], v.config.max_record_bytes);
            &&& rs.len() > 0
            &&& total(rs.drop_last()) <= cut < s.size
        }),
        next_of(v) <= MAX_OFFSET,
        r.offset == next_of(v) - 1,
        encoded_size(r) <= v.config.max_record_bytes,
    ensures
        ({
            let after = crashed(v, d, cut);
            let files = files_of(v.segments, after);
            let again = opened(files, v.config, now_ms);
            let w = again->Ok_0;
            let e = apply_all(after, open_ops(files, v.config));
            let x = appended(w, r, now_ms);
            let f = apply_all(e, append_ops(w, r, now_ms));
            &&& again is Ok
            &&& log_ok(w) && kept(w, e)
            &&& start_of(w) == start_of(v)
            &&& next_of(w) == next_of(v) - 1
            &&& all_records(w, e) == all_records(v, d).drop_last()
            &&& log_ok(x) && kept(x, f)
            &&& all_records(x, f) == all_records(v, d).drop_last().push(r)
        }),
{
    let s = v.segments.last();
    let rs = records(s, d.logs[s.base], v.config.max_record_bytes);
    let k = rs.len() - 1;
    lemma_newest(v, d);
    lemma_scan_bounds(d.logs[s.base], v.config.max_record_bytes, s.base);
    assert(rs.take(k) =~= rs.drop_last());
    assert(rs.take(k + 1) =~= rs);
    law_crash_reopens(v, d, cut, k, now_ms);
    law_offsets(v, d);
    let after = crashed(v, d, cut);
    let files = files_of(v.segments, after);
    let w = opened(files, v.config, now_ms)->Ok_0;
    let e = apply_all(after, open_ops(files, v.config));
    assert(all_records(v, d).take(next_of(w) - start_of(v)) =~= all_records(v, d).drop_last());
    law_append(w, e, r, now_ms);
}

/// A crash takes no record that was fsynced: whatever it leaves beyond what is
/// on stable storage, the log opens again, with files that are right, with a
/// prefix of its records, and with every record that it counted as durable.
pub proof fn law_fsynced_survives(
    v: LogView,
    d: Disk,
    m: Map<nat, nat>,
    cut: int,
    k: int,
    now_ms: u64,
    offset: u64,
)
    requires
        log_ok(v),
        kept(v, d),
        secured(v, d, m),
        m[v.segments.last().base] <= cut <= v.segments.last().size,
        start_of(v) <= offset,
        v.durable is Some && offset <= v.durable->0,
        ({
            let s = v.segments.last();
            let rs = records(s, d.logs[s.base], v.config.max_record_bytes);
            &&& 0 <= k <= rs.len()
            &&& total(rs.take(k)) <= cut
            &&& k < rs.len() ==> cut < total(rs.take(k + 1))
        }),
    ensures
        ({
            let after = crashed(v, d, cut);
            let files = files_of(v.segments, after);
            let again = opened(files, v.config, now_ms);
            let w = again->Ok_0;
            let e = apply_all(after, open_ops(files, v.config));
            &&& again is Ok
            &&& log_ok(w)
            &&& kept(w, e)
            &&& start_of(w) == start_of(v)
            &&& offset < next_of(w) <= next_of(v)
            &&& all_records(w, e) == all_records(v, d).take(next_of(w) - start_of(v))
        }),
{
    let s = v.segments.last();
    let rs = records(s, d.logs[s.base], v.config.max_record_bytes);
    law_crash_reopens(v, d, cut, k, now_ms);
    law_survivors(rs, cut, k, durable_count(v));
}

} // verus!
