//! What rows of bytes hold, read as records.

use super::record::{
    decoding, encoded_size, encoding, law_record_checked, law_record_roundtrip, law_record_torn,
    lemma_body_len, lemma_decoding_empty, storable, Found, RecordView,
};
use crate::codec::{lemma_le_value_bound, lemma_pow256_values};
use vstd::prelude::*;

verus! {

/// Why a scan ended.
pub enum Stop {
    /// At the end of the bytes.
    Clean,
    /// At bytes that are too few for a record.
    Torn,
    /// At bytes that are no record.
    Bad(Seq<char>),
    /// At a record with this offset, which does not continue the row.
    Gap(u64),
}

/// The records that a scan found, and why it ended.
pub struct Scan {
    pub records: Seq<RecordView>,
    pub stop: Stop,
}

/// The number of bytes of records.
pub open spec fn total(rs: Seq<RecordView>) -> nat
    decreases rs.len(),
{
    if rs.len() == 0 {
        0
    } else {
        total(rs.drop_last()) + encoded_size(rs.last())
    }
}

/// The bytes of records, one behind the other.
pub open spec fn content(rs: Seq<RecordView>) -> Seq<u8>
    decreases rs.len(),
{
    if rs.len() == 0 {
        Seq::empty()
    } else {
        content(rs.drop_last()) + encoding(rs.last())
    }
}

/// Offsets rise by one from `base`, and every record is storable.
pub open spec fn in_row(rs: Seq<RecordView>, base: nat, max: u32) -> bool {
    forall|i: int|
        0 <= i < rs.len() ==> (#[trigger] rs[i]).offset == base + i && storable(rs[i], max)
}

/// A scan with records in front of it.
pub open spec fn behind(done: Seq<RecordView>, s: Scan) -> Scan {
    Scan { records: done + s.records, stop: s.stop }
}

/// The records at the front of `buf` with offsets rising by one from `next`.
pub open spec fn scan(buf: Seq<u8>, max: u32, next: nat) -> Scan
    decreases buf.len(),
{
    match decoding(buf, max) {
        Found::Record { record, consumed } => if record.offset != next {
            Scan { records: Seq::empty(), stop: Stop::Gap(record.offset) }
        } else if 0 < consumed <= buf.len() {
            behind(seq![record], scan(buf.skip(consumed as int), max, next + 1))
        } else {
            Scan { records: Seq::empty(), stop: Stop::Clean }
        },
        Found::Incomplete => Scan {
            records: Seq::empty(),
            stop: if buf.len() == 0 {
                Stop::Clean
            } else {
                Stop::Torn
            },
        },
        Found::Corrupt(text) => Scan { records: Seq::empty(), stop: Stop::Bad(text) },
    }
}

/// Every decoded record takes as many bytes as its encoding has.
pub proof fn lemma_consumed(buf: Seq<u8>, max: u32)
    ensures
        decoding(buf, max) matches Found::Record { record, consumed } ==> consumed == encoded_size(
            record,
        ) && 32 <= consumed <= buf.len(),
{
    law_record_checked(buf, max);
    if let Found::Record { record, consumed } = decoding(buf, max) {
        let b = buf.subrange(8, consumed as int);
        lemma_pow256_values();
        lemma_le_value_bound(b.subrange(16, 20));
    }
}

/// One record more.
pub proof fn lemma_scan_step(done: Seq<RecordView>, buf: Seq<u8>, max: u32, next: nat)
    ensures
        match decoding(buf, max) {
            Found::Record { record, consumed } => consumed == encoded_size(record) && 32 <= consumed
                <= buf.len() && (if record.offset == next {
                behind(done, scan(buf, max, next)) == behind(
                    done.push(record),
                    scan(buf.skip(consumed as int), max, next + 1),
                )
            } else {
                behind(done, scan(buf, max, next)) == (Scan {
                    records: done,
                    stop: Stop::Gap(record.offset),
                })
            }),
            Found::Incomplete => behind(done, scan(buf, max, next)) == (Scan {
                records: done,
                stop: if buf.len() == 0 {
                    Stop::Clean
                } else {
                    Stop::Torn
                },
            }),
            Found::Corrupt(text) => behind(done, scan(buf, max, next)) == (Scan {
                records: done,
                stop: Stop::Bad(text),
            }),
        },
{
    lemma_consumed(buf, max);
    if let Found::Record { record, consumed } = decoding(buf, max) {
        if record.offset == next {
            let s = scan(buf.skip(consumed as int), max, next + 1);
            assert(done + (seq![record] + s.records) =~= done.push(record) + s.records);
        }
    }
    assert(done + Seq::<RecordView>::empty() =~= done);
}

pub proof fn lemma_nothing_done(s: Scan)
    ensures
        behind(Seq::empty(), s) == s,
{
    assert(Seq::empty() + s.records =~= s.records);
}

/// The records that a scan finds fit in the bytes scanned, are in row, and none
/// takes more than it may.
pub proof fn lemma_scan_bounds(buf: Seq<u8>, max: u32, next: nat)
    ensures
        ({
            let s = scan(buf, max, next);
            &&& total(s.records) <= buf.len()
            &&& 32 * s.records.len() <= total(s.records)
            &&& s.stop is Clean ==> total(s.records) == buf.len()
            &&& forall|i: int|
                0 <= i < s.records.len() ==> (#[trigger] s.records[i]).offset == next + i
        }),
    decreases buf.len(),
{
    lemma_consumed(buf, max);
    if let Found::Record { record, consumed } = decoding(buf, max) {
        if record.offset == next {
            let rest = scan(buf.skip(consumed as int), max, next + 1);
            lemma_scan_bounds(buf.skip(consumed as int), max, next + 1);
            lemma_total_first(seq![record] + rest.records);
            assert((seq![record] + rest.records).skip(1) =~= rest.records);
            let s = scan(buf, max, next);
            assert forall|i: int| 0 <= i < s.records.len() implies (
            #[trigger] s.records[i]).offset == next + i by {
                if i > 0 {
                    assert(s.records[i] == rest.records[i - 1]);
                }
            }
        }
    }
}

pub proof fn lemma_total_first(rs: Seq<RecordView>)
    requires
        rs.len() > 0,
    ensures
        total(rs) == encoded_size(rs[0]) + total(rs.skip(1)),
    decreases rs.len(),
{
    if rs.len() == 1 {
        assert(rs.skip(1) =~= Seq::empty());
        assert(rs.drop_last() =~= Seq::empty());
    } else {
        lemma_total_first(rs.drop_last());
        assert(rs.drop_last().skip(1) =~= rs.skip(1).drop_last());
    }
}

pub proof fn lemma_total_add(a: Seq<RecordView>, b: Seq<RecordView>)
    ensures
        total(a + b) == total(a) + total(b),
    decreases b.len(),
{
    if b.len() == 0 {
        assert(a + b =~= a);
    } else {
        lemma_total_add(a, b.drop_last());
        assert((a + b).drop_last() =~= a + b.drop_last());
    }
}

pub proof fn lemma_content_add(a: Seq<RecordView>, b: Seq<RecordView>)
    ensures
        content(a + b) == content(a) + content(b),
    decreases b.len(),
{
    if b.len() == 0 {
        assert(a + b =~= a);
        assert(content(a) + content(b) =~= content(a));
    } else {
        lemma_content_add(a, b.drop_last());
        assert((a + b).drop_last() =~= a + b.drop_last());
        assert(content(a + b) =~= content(a) + content(b));
    }
}

pub proof fn lemma_content_len(rs: Seq<RecordView>)
    ensures
        content(rs).len() == total(rs),
    decreases rs.len(),
{
    if rs.len() > 0 {
        lemma_content_len(rs.drop_last());
        lemma_body_len(rs.last());
    }
}

proof fn lemma_content_first(rs: Seq<RecordView>)
    requires
        rs.len() > 0,
    ensures
        content(rs) == encoding(rs[0]) + content(rs.skip(1)),
{
    lemma_content_add(seq![rs[0]], rs.skip(1));
    assert(seq![rs[0]] + rs.skip(1) =~= rs);
    let one = seq![rs[0]];
    assert(one.drop_last() =~= Seq::empty());
    assert(content(one) == content(one.drop_last()) + encoding(one.last()));
    assert(content(one) =~= encoding(rs[0]));
}

/// Scanning the bytes of records in row finds the records, and goes on behind
/// them.
pub proof fn law_scan_content(rs: Seq<RecordView>, rest: Seq<u8>, max: u32, base: nat)
    requires
        in_row(rs, base, max),
    ensures
        scan(content(rs) + rest, max, base) == behind(rs, scan(rest, max, base + rs.len())),
    decreases rs.len(),
{
    if rs.len() == 0 {
        assert(content(rs) + rest =~= rest);
        lemma_nothing_done(scan(rest, max, base));
        assert(rs =~= Seq::empty());
    } else {
        let tail = rs.skip(1);
        let buf = content(rs) + rest;
        lemma_content_first(rs);
        assert(buf =~= encoding(rs[0]) + (content(tail) + rest));
        law_record_roundtrip(rs[0], content(tail) + rest, max);
        lemma_body_len(rs[0]);
        assert(buf.skip(encoded_size(rs[0]) as int) =~= content(tail) + rest);
        assert forall|i: int| 0 <= i < tail.len() implies (#[trigger] tail[i]).offset == base + 1
            + i && storable(tail[i], max) by {
            assert(tail[i] == rs[i + 1]);
        }
        law_scan_content(tail, rest, max, base + 1);
        let s = scan(rest, max, base + rs.len());
        assert(seq![rs[0]] + (tail + s.records) =~= rs + s.records);
    }
}

/// Scanning the bytes of records in row, and nothing behind them, finds exactly
/// the records.
pub proof fn law_scan_intact(rs: Seq<RecordView>, max: u32, base: nat)
    requires
        in_row(rs, base, max),
    ensures
        scan(content(rs), max, base) == (Scan { records: rs, stop: Stop::Clean }),
{
    law_scan_content(rs, Seq::empty(), max, base);
    lemma_decoding_empty(max);
    assert(content(rs) + Seq::<u8>::empty() =~= content(rs));
    assert(rs + Seq::<RecordView>::empty() =~= rs);
}

/// A record that is cut short behind whole ones: the scan finds the whole ones.
pub proof fn law_scan_torn(
    rs: Seq<RecordView>,
    last: RecordView,
    cut: int,
    max: u32,
    base: nat,
)
    requires
        in_row(rs, base, max),
        storable(last, max),
        0 < cut < encoded_size(last),
    ensures
        scan(content(rs) + encoding(last).take(cut), max, base) == (Scan {
            records: rs,
            stop: Stop::Torn,
        }),
{
    let tail = encoding(last).take(cut);
    lemma_body_len(last);
    law_scan_content(rs, tail, max, base);
    law_record_torn(last, cut, max);
    assert(rs + Seq::<RecordView>::empty() =~= rs);
}

/// What is decoded at the front of bytes does not change with what follows it.
pub proof fn lemma_decoding_prefix(buf: Seq<u8>, rest: Seq<u8>, max: u32)
    requires
        decoding(buf, max) is Record,
    ensures
        decoding(buf + rest, max) == decoding(buf, max),
{
    reveal(decoding);
    lemma_consumed(buf, max);
    let consumed = decoding(buf, max)->consumed as int;
    let all = buf + rest;
    assert(all.take(4) =~= buf.take(4));
    assert(all.subrange(4, 8) =~= buf.subrange(4, 8));
    assert(all.subrange(8, consumed) =~= buf.subrange(8, consumed));
}

/// A clean scan is not disturbed by what follows.
pub proof fn law_scan_prefix(buf: Seq<u8>, rest: Seq<u8>, max: u32, next: nat)
    requires
        scan(buf, max, next).stop is Clean,
    ensures
        scan(buf + rest, max, next) == behind(
            scan(buf, max, next).records,
            scan(rest, max, next + scan(buf, max, next).records.len()),
        ),
    decreases buf.len(),
{
    lemma_consumed(buf, max);
    match decoding(buf, max) {
        Found::Record { record, consumed } => {
            lemma_decoding_prefix(buf, rest, max);
            let tail = buf.skip(consumed as int);
            assert((buf + rest).skip(consumed as int) =~= tail + rest);
            law_scan_prefix(tail, rest, max, next + 1);
            let a = scan(tail, max, next + 1).records;
            let b = scan(rest, max, next + 1 + a.len());
            assert(seq![record] + (a + b.records) =~= (seq![record] + a) + b.records);
        },
        _ => {
            assert(buf + rest =~= rest);
            lemma_nothing_done(scan(rest, max, next));
        },
    }
}

/// The bytes of the first `k` records of a clean scan are a clean scan of those
/// records, and what follows them is a clean scan of the others.
pub proof fn lemma_scan_split(buf: Seq<u8>, max: u32, next: nat, k: int)
    requires
        0 <= k <= scan(buf, max, next).records.len(),
    ensures
        ({
            let s = scan(buf, max, next);
            let at = total(s.records.take(k)) as int;
            &&& at <= buf.len()
            &&& scan(buf.take(at), max, next) == (Scan {
                records: s.records.take(k),
                stop: Stop::Clean,
            })
            &&& scan(buf.skip(at), max, (next + k) as nat) == (Scan {
                records: s.records.skip(k),
                stop: s.stop,
            })
        }),
    decreases buf.len(),
{
    let s = scan(buf, max, next);
    if k == 0 {
        assert(s.records.take(0) =~= Seq::empty());
        assert(s.records.skip(0) =~= s.records);
        assert(buf.take(0) =~= Seq::empty());
        assert(buf.skip(0) =~= buf);
        lemma_decoding_empty(max);
    } else {
        lemma_consumed(buf, max);
        if let Found::Record { record, consumed } = decoding(buf, max) {
            let c = consumed as int;
            let tail = buf.skip(c);
            let t = scan(tail, max, next + 1);
            assert(s.records =~= seq![record] + t.records);
            lemma_scan_split(tail, max, next + 1, k - 1);
            let at1 = total(t.records.take(k - 1)) as int;
            let at = total(s.records.take(k)) as int;
            assert(s.records.take(k).skip(1) =~= t.records.take(k - 1));
            lemma_total_first(s.records.take(k));
            assert(at == c + at1);
            let front = buf.take(at);
            assert(front.skip(c) =~= tail.take(at1));
            assert(decoding(front, max) == decoding(buf, max)) by {
                reveal(decoding);
                assert(front.take(4) =~= buf.take(4));
                assert(front.subrange(4, 8) =~= buf.subrange(4, 8));
                assert(front.subrange(8, c) =~= buf.subrange(8, c));
            }
            assert(seq![record] + t.records.take(k - 1) =~= s.records.take(k));
            assert(buf.skip(at) =~= tail.skip(at1));
            assert(s.records.skip(k) =~= t.records.skip(k - 1));
        }
    }
}

} // verus!
