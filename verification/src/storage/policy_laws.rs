//! When a log flushes, rolls and indexes, and what its settings mean.

use super::disk::lemma_total_rises;
use super::index::{entries_in, floor_entry, rising};
use super::log::{
    append_outcome, appended, bases_in, before, clamped, log_stem, must_roll, next_of, roomy,
    written, AppendInfo, FileOp, Log, LogView,
};
use super::record::{encoded_size, encoding, key_len, RecordView};
use super::scan::total;
use super::segment::{
    advance_all, empty_segment, index_name, log_name, low_bits, read_position, recovery_start,
};
use super::{policy_of, FsyncPolicy, LogConfig, Result, StorageFault};
use crate::codec::{bits64, le};
use crate::crc::crc32;
use crate::text::{
    decimal, digit_char, law_parse_decimal, lemma_decimal_digits, lemma_first_of,
    lemma_parse_digits_add, padded, parse_digits, parse_number, IntError,
};
use vstd::arithmetic::power::pow;
use vstd::prelude::*;

verus! {

/// A record that is appended is the next one, behind all others. Under
/// `always` it is on disk with all before it; under `batch` what is not yet on
/// disk stays under the byte bound and is younger than the time bound; under
/// `os` nothing is flushed but a segment that is full.
pub proof fn law_flush_policy(v: LogView, r: RecordView, now_ms: u64)
    requires
        v.segments.len() > 0,
        next_of(v) < u64::MAX,
    ensures
        ({
            let w = appended(v, r, now_ms);
            let full = v.segments.last().size > 0 && v.segments.last().size + encoded_size(r)
                > v.config.max_segment_bytes;
            let on_disk = w.durable == Some(next_of(v) as u64) && w.dirty == 0 && w.last_flush_ms
                == now_ms;
            let unflushed = (if full {
                0
            } else {
                v.dirty
            }) + encoded_size(r);
            let kept = w.dirty == unflushed && if full {
                w.durable == before(next_of(v)) && w.last_flush_ms == now_ms
            } else {
                w.durable == v.durable && w.last_flush_ms == v.last_flush_ms
            };
            &&& next_of(w) == next_of(v) + 1
            &&& w.config == v.config
            &&& match v.config.fsync {
                FsyncPolicy::Always => on_disk,
                FsyncPolicy::Os => kept,
                FsyncPolicy::Batch { max_bytes, max_ms } => {
                    &&& on_disk || kept
                    &&& max_bytes > 0 ==> w.dirty < max_bytes
                    &&& unflushed < max_bytes && !full && now_ms - v.last_flush_ms < max_ms
                        && max_ms > 0 ==> kept
                    &&& !full && now_ms >= v.last_flush_ms && now_ms - v.last_flush_ms >= max_ms
                        ==> on_disk
                    &&& unflushed >= max_bytes ==> on_disk
                },
            }
        }),
{
}

/// A segment takes a record as long as it stays within its bound, and one
/// record in any case; only where it would not, the next segment starts, at
/// the offset of that record.
pub proof fn law_rolls(v: LogView, r: RecordView, now_ms: u64)
    requires
        v.segments.len() > 0,
    ensures
        ({
            let w = appended(v, r, now_ms);
            let s = v.segments.last();
            let t = w.segments.last();
            let full = s.size > 0 && s.size + encoded_size(r) > v.config.max_segment_bytes;
            &&& t.next == s.next + 1
            &&& full ==> w.segments.len() == v.segments.len() + 1 && t.base == next_of(v) && t.size
                == encoded_size(r) && w.segments.drop_last() == v.segments
            &&& !full ==> w.segments.len() == v.segments.len() && t.base == s.base && t.size
                == s.size + encoded_size(r) && w.segments.drop_last() == v.segments.drop_last()
            &&& t.size <= v.config.max_segment_bytes || t.size == encoded_size(r)
        }),
{
    let w = appended(v, r, now_ms);
    let room = roomy(v, r, now_ms);
    assert(room.segments.len() > 0);
    assert(w.segments == written(room, r).segments);
    assert(w.segments.drop_last() =~= room.segments.drop_last());
    if must_roll(v, encoded_size(r)) {
        assert(room.segments.drop_last() =~= v.segments);
        assert(room.segments.last() == empty_segment(next_of(v)));
    }
}

/// The entries of a sparse index lie at records, an interval and a record apart
/// at most.
pub open spec fn indexed(
    es: Seq<(u32, u32)>,
    rs: Seq<RecordView>,
    interval: u64,
    max: nat,
) -> bool {
    &&& rising(es)
    &&& forall|i: int|
        0 <= i < es.len() ==> (#[trigger] es[i]).0 < rs.len() && es[i].1 == total(
            rs.take(es[i].0 as int),
        )
    &&& forall|k: int|
        0 <= k <= rs.len() ==> reached(es, k, #[trigger] total(rs.take(k)), interval, max)
}

/// From an entry at or before record `k`, or from the start, its place is at
/// most an interval and one record away.
pub open spec fn reached(es: Seq<(u32, u32)>, k: int, at: nat, interval: u64, max: nat) -> bool {
    ||| at <= interval + max
    ||| exists|i: int|
        0 <= i < es.len() && (#[trigger] es[i]).0 <= k && at <= es[i].1 + interval + max
}

proof fn lemma_indexed(base: nat, rs: Seq<RecordView>, interval: u64, max: nat)
    requires
        interval > 0,
        total(rs) <= u32::MAX,
        forall|i: int| 0 <= i < rs.len() ==> encoded_size(#[trigger] rs[i]) <= max,
    ensures
        ({
            let s = advance_all(empty_segment(base), rs, interval, true);
            &&& s.base == base
            &&& s.next == base + rs.len()
            &&& s.size == total(rs)
            &&& rs.len() <= total(rs)
            &&& s.since <= s.size
            &&& s.entries.len() > 0 ==> s.entries.last().1 + s.since == s.size
            &&& s.entries.len() == 0 ==> s.since == s.size
            &&& indexed(s.entries, rs, interval, max)
        }),
    decreases rs.len(),
{
    let s = advance_all(empty_segment(base), rs, interval, true);
    if rs.len() == 0 {
        assert(rs.take(0) =~= rs);
    } else {
        let head = rs.drop_last();
        let n = head.len() as int;
        assert forall|i: int| 0 <= i < head.len() implies encoded_size(#[trigger] head[i])
            <= max by {
            assert(head[i] == rs[i]);
        }
        lemma_indexed(base, head, interval, max);
        let h = advance_all(empty_segment(base), head, interval, true);
        assert(rs.last() == rs[n]);
        assert(h.size <= u32::MAX);
        assert(low_bits(n) == n);
        assert(low_bits(h.size as int) == h.size);
        assert(rs.take(n) =~= head);
        assert(rs.take(n + 1) =~= rs);
        assert forall|k: int| 0 <= k <= n implies #[trigger] rs.take(k) == head.take(k) by {
            assert(rs.take(k) =~= head.take(k));
        }
        let mark = h.since >= interval;
        if mark {
            assert(s.entries == h.entries.push((n as u32, h.size as u32)));
            assert(h.since > 0);
        } else {
            assert(s.entries == h.entries);
        }
        assert forall|i: int| 0 <= i < s.entries.len() implies (#[trigger] s.entries[i]).0
            < rs.len() && s.entries[i].1 == total(rs.take(s.entries[i].0 as int)) by {
            if i < h.entries.len() {
                assert(s.entries[i] == h.entries[i]);
            }
        }
        assert(rising(s.entries)) by {
            assert forall|i: int, j: int| 0 <= i < j < s.entries.len() implies s.entries[i].0
                < s.entries[j].0 && s.entries[i].1 < s.entries[j].1 by {
                if mark && j == h.entries.len() {
                    let last = h.entries.last();
                    assert(h.entries[h.entries.len() - 1] == last);
                    assert(h.entries[i].0 < head.len());
                    assert(h.entries[i].1 <= last.1);
                }
            }
        }
        assert forall|k: int| 0 <= k <= rs.len() implies reached(
            s.entries,
            k,
            #[trigger] total(rs.take(k)),
            interval,
            max,
        ) by {
            if k <= n {
                assert(reached(h.entries, k, total(head.take(k)), interval, max));
                if total(rs.take(k)) > interval + max {
                    let i = choose|i: int|
                        0 <= i < h.entries.len() && (#[trigger] h.entries[i]).0 <= k && total(
                            head.take(k),
                        ) <= h.entries[i].1 + interval + max;
                    assert(s.entries[i] == h.entries[i]);
                }
            } else {
                assert(total(rs) == h.size + encoded_size(rs.last()));
                if mark {
                    assert(s.entries[s.entries.len() - 1] == (n as u32, h.size as u32));
                } else if h.entries.len() > 0 {
                    assert(s.entries[s.entries.len() - 1] == h.entries.last());
                }
            }
        }
    }
}

proof fn lemma_floor_largest(es: Seq<(u32, u32)>, target: u32)
    requires
        rising(es),
    ensures
        forall|i: int|
            0 <= i < es.len() && (#[trigger] es[i]).0 <= target ==> floor_entry(es, target) is Some
                && es[i].1 <= (floor_entry(es, target)->0).1,
        floor_entry(es, target) matches Some(e) ==> e.0 <= target && es.contains(e),
    decreases es.len(),
{
    if es.len() > 0 {
        if es.last().0 <= target {
            assert(es[es.len() - 1] == es.last());
        } else {
            let head = es.drop_last();
            lemma_floor_largest(head, target);
            assert forall|i: int| 0 <= i < es.len() && (#[trigger] es[i]).0 <= target implies floor_entry(
                es,
                target,
            ) is Some && es[i].1 <= (floor_entry(es, target)->0).1 by {
                assert(head[i] == es[i]);
            }
            if let Some(e) = floor_entry(es, target) {
                let i = choose|i: int| 0 <= i < head.len() && head[i] == e;
                assert(es[i] == e);
            }
        }
    }
}

/// A segment that was written from its start is indexed as it grows: a read of
/// any record begins at a record at or before it, and passes over no more than
/// an index interval and one record.
pub proof fn law_index_sparse(base: nat, rs: Seq<RecordView>, interval: u64, max: nat, k: int)
    requires
        interval > 0,
        total(rs) <= u32::MAX,
        forall|i: int| 0 <= i < rs.len() ==> encoded_size(#[trigger] rs[i]) <= max,
        0 <= k <= rs.len(),
    ensures
        ({
            let s = advance_all(empty_segment(base), rs, interval, true);
            let at = read_position(s, base + k as nat);
            &&& at <= total(rs.take(k)) <= at + interval + max
            &&& exists|j: int| 0 <= j <= k && at == #[trigger] total(rs.take(j))
        }),
{
    let s = advance_all(empty_segment(base), rs, interval, true);
    lemma_indexed(base, rs, interval, max);
    lemma_floor_largest(s.entries, k as u32);
    assert(reached(s.entries, k, total(rs.take(k)), interval, max));
    match floor_entry(s.entries, k as u32) {
        Some(e) => {
            let i = choose|i: int| 0 <= i < s.entries.len() && s.entries[i] == e;
            assert(s.entries[i].1 == total(rs.take(s.entries[i].0 as int)));
            lemma_total_rises(rs, e.0 as int, k);
            assert(e.1 == total(rs.take(e.0 as int)));
        },
        None => {
            assert(rs.take(0) =~= Seq::<RecordView>::empty());
            assert(total(rs.take(0)) == 0);
        },
    }
}

/// What a log may be set to.
pub proof fn law_settings(c: LogConfig)
    ensures
        c.valid() <==> 1024 <= c.max_segment_bytes <= 1024 * 1024 * 1024 && c.index_interval_bytes
            >= 64 && c.max_record_bytes <= 1024 * 1024 * 1024,
{
}

/// Every flush policy can be written down and read again.
pub proof fn law_policy_named(max_bytes: u64, max_ms: u64)
    ensures
        policy_of("always"@) == Ok::<FsyncPolicy, Seq<char>>(FsyncPolicy::Always),
        policy_of("os"@) == Ok::<FsyncPolicy, Seq<char>>(FsyncPolicy::Os),
        policy_of(
            "batch:"@ + (decimal(max_bytes as nat) + (":"@ + decimal(max_ms as nat))),
        ) == Ok::<FsyncPolicy, Seq<char>>(FsyncPolicy::Batch { max_bytes, max_ms }),
{
    reveal_strlit("always");
    reveal_strlit("os");
    reveal_strlit("batch:");
    reveal_strlit(":");
    let a = decimal(max_bytes as nat);
    let b = decimal(max_ms as nat);
    let rest = a + (":"@ + b);
    let s = "batch:"@ + rest;
    lemma_decimal_digits(max_bytes as nat);
    assert(s[0] == 'b');
    assert("always"@[0] == 'a');
    assert("os"@[0] == 'o');
    assert(s.take(6) =~= "batch:"@);
    assert(s.skip(6) =~= rest);
    assert forall|i: int| 0 <= i < a.len() implies rest[i] != ':' by {
        assert(rest[i] == a[i]);
        assert(crate::text::is_digit(a[i]));
    }
    assert(rest[a.len() as int] == ':');
    lemma_first_of(rest, ':', a.len() as int);
    assert(rest.take(a.len() as int) =~= a);
    assert(rest.skip(a.len() + 1int) =~= b);
    law_parse_decimal(max_bytes as nat, u64::MAX as nat);
    law_parse_decimal(max_ms as nat, u64::MAX as nat);
}

proof fn lemma_parse_padded(n: nat, width: nat, max: nat)
    requires
        n < pow(10, width),
        n <= max,
    ensures
        parse_digits(padded(n, width), 0, max) == Ok::<nat, IntError>(n),
        padded(n, width).len() == width,
        forall|i: int| 0 <= i < width ==> crate::text::is_digit(#[trigger] padded(n, width)[i]),
    decreases width,
{
    reveal_with_fuel(parse_digits, 2);
    reveal(pow);
    if width > 0 {
        let w = (width - 1) as nat;
        let d = digit_char(n % 10);
        let p = pow(10, w);
        assert(pow(10, width) == 10 * p);
        assert(n / 10 < p);
        lemma_parse_padded(n / 10, w, max);
        lemma_parse_digits_add(padded(n / 10, w), seq![d], 0, max);
        assert(padded(n, width) =~= padded(n / 10, w) + seq![d]);
        assert(seq![d].skip(1) =~= Seq::empty());
    }
}

/// A segment's file is found again among others under its name, with the offset
/// that it starts at; its index file is passed over.
pub proof fn law_segment_named(names: Seq<Seq<char>>, base: u64)
    requires
        bases_in(names) is Ok,
    ensures
        bases_in(names.push(log_name(base as nat))) == Ok::<Seq<u64>, Seq<char>>(
            bases_in(names)->Ok_0.push(base),
        ),
        bases_in(names.push(index_name(base as nat))) == bases_in(names),
        log_name(base as nat).len() == 24,
{
    reveal_strlit(".log");
    reveal_strlit(".index");
    reveal_with_fuel(pow, 21);
    assert(pow(10, 20) == 100_000_000_000_000_000_000);
    lemma_parse_padded(base as nat, 20, u64::MAX as nat);
    let stem = padded(base as nat, 20);
    let name = log_name(base as nat);
    let index = index_name(base as nat);
    assert(name.skip(20) =~= ".log"@);
    assert(name.take(20) =~= stem);
    assert(log_stem(name) == Some(stem));
    assert(crate::text::is_digit(stem[0]));
    assert(parse_number(stem, u64::MAX as nat) == Ok::<nat, IntError>(base as nat));
    assert(names.push(name).drop_last() =~= names);
    assert(names.push(index).drop_last() =~= names);
    assert(index.skip(index.len() - 4)[0] == 'n');
    assert(log_stem(index) is None);
}

/// What was on disk before the tail was cut is on disk after it, and nothing
/// behind the cut counts as on disk.
pub proof fn law_cut_clamps(durable: Option<u64>, new_next: u64)
    ensures
        clamped(durable, new_next) matches Some(d) ==> d < new_next && durable is Some && d
            <= durable->0,
        durable is Some && durable->0 < new_next ==> clamped(durable, new_next) == durable,
        durable is Some && durable->0 >= new_next > 0 ==> clamped(durable, new_next) == Some(
            (new_next - 1) as u64,
        ),
{
}

/// A record on disk: the length of what follows it, the checksum of what
/// follows that, then offset, timestamp, key and value, each number in little
/// endian; a missing key has length -1.
pub proof fn law_record_layout(r: RecordView)
    ensures
        ({
            let key = match r.key {
                None => le(0xffff_ffff, 4),
                Some(k) => le(k.len(), 4) + k,
            };
            let rest = le(r.offset as nat, 8) + le(bits64(r.timestamp_ms), 8) + key + le(
                r.value.len(),
                4,
            ) + r.value;
            encoding(r) == le(rest.len() + 4, 4) + le(crc32(rest) as nat, 4) + rest
        }),
        encoded_size(r) == 32 + key_len(r.key) + r.value.len(),
{
    assert(super::record::body(r).len() + 4 == 4 + super::record::body(r).len());
}

/// A record is taken at the end of the log unless it is too large; one that is
/// changes nothing.
pub proof fn law_append_taken(
    a: Log,
    b: Log,
    r: RecordView,
    now_ms: u64,
    result: Result<(AppendInfo, Vec<FileOp>)>,
)
    requires
        append_outcome(a, b, r, now_ms, result),
        a@.segments.len() > 0,
        encoded_size(r) <= u64::MAX,
    ensures
        result is Ok <==> encoded_size(r) <= a@.config.max_record_bytes,
        result is Ok ==> (result->Ok_0).0.offset == r.offset && next_of(b@) == next_of(a@) + 1,
        result is Err ==> b@ == a@ && result->Err_0@ == StorageFault::RecordTooLarge(
            encoded_size(r) as u64,
        ),
{
    law_rolls(a@, r, now_ms);
}

/// An index is a cache: the newest segment is scanned whole, and an older one
/// too where its index is missing, of broken length, out of order or pointing
/// behind its log; else the scan starts at the last entry.
pub proof fn law_index_trusted(base: nat, len: nat, index: Option<Seq<u8>>)
    ensures
        recovery_start(base, len, index, true) == (empty_segment(base), true),
        index is None ==> recovery_start(base, len, index, false) == (empty_segment(base), true),
        index is Some && index->0.len() % 8 != 0 ==> recovery_start(base, len, index, false) == (
            empty_segment(base),
            true,
        ),
        index is Some && !rising(entries_in(index->0)) ==> recovery_start(base, len, index, false)
            == (empty_segment(base), true),
        index is Some && entries_in(index->0).len() > 0 && entries_in(index->0).last().1 > len
            ==> recovery_start(base, len, index, false) == (empty_segment(base), true),
        ({
            let es = entries_in(index->0);
            let (s, rebuild) = recovery_start(base, len, index, false);
            index is Some && index->0.len() % 8 == 0 && rising(es) && es.len() > 0 && 32
                * es.last().0 <= es.last().1 <= len ==> !rebuild && s.entries == es && s.size
                == es.last().1 && s.next == base + es.last().0
        }),
{
}

} // verus!
