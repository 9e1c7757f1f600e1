//! The record format.

use crate::codec::{
    bits64, from_bits32, from_bits64, get_le, law_le_bytes, law_le_roundtrip, le, le_value,
    lemma_le_len, lemma_le_value_bound, lemma_pow256_values, put_le, signed32, signed64, to_bits64,
};
use crate::crc::{crc32, law_changed_byte};
use crate::proto::opt_view;
use crate::text::{decimal, hex, push_decimal, push_hex};
use vstd::prelude::*;
use vstd::slice::*;
use vstd::string::*;

verus! {

pub const LEN_FIELD_BYTES: usize = 4;

pub const CRC_FIELD_BYTES: usize = 4;

/// offset(8) + timestamp(8) + key_len(4) + value_len(4)
pub const MIN_BODY_BYTES: usize = 24;

/// On-disk layout (little-endian):
///
/// ```text
/// u32  len          length of everything after this field
/// u32  crc32        over everything after this field
/// u64  offset       absolute, monotonic
/// i64  timestamp_ms
/// i32  key_len      -1 = null key
///      key bytes
/// u32  value_len
///      value bytes
/// ```
///
/// Length-first so recovery can skip records without parsing them; CRC over the
/// whole body so nothing is trusted before it is verified.
#[derive(Debug, Clone, PartialEq, Eq)]
pub struct Record {
    pub offset: u64,
    pub timestamp_ms: i64,
    pub key: Option<Vec<u8>>,
    pub value: Vec<u8>,
}

/// What a record holds.
pub struct RecordView {
    pub offset: u64,
    pub timestamp_ms: i64,
    pub key: Option<Seq<u8>>,
    pub value: Seq<u8>,
}

impl View for Record {
    type V = RecordView;

    open spec fn view(&self) -> RecordView {
        RecordView {
            offset: self.offset,
            timestamp_ms: self.timestamp_ms,
            key: opt_view(self.key),
            value: self.value@,
        }
    }
}

#[derive(Debug)]
pub enum DecodeOutcome {
    /// A complete, CRC-valid record; `consumed` bytes were used from the input.
    Record { record: Record, consumed: usize },
    /// Not enough bytes for a complete record: a torn tail, or simply the end
    /// of the bytes read so far.
    Incomplete,
    Corrupt(String),
}

/// What decoding finds.
pub enum Found {
    Record { record: RecordView, consumed: nat },
    Incomplete,
    Corrupt(Seq<char>),
}

impl View for DecodeOutcome {
    type V = Found;

    open spec fn view(&self) -> Found {
        match *self {
            DecodeOutcome::Record { record, consumed } => Found::Record {
                record: record@,
                consumed: consumed as nat,
            },
            DecodeOutcome::Incomplete => Found::Incomplete,
            DecodeOutcome::Corrupt(text) => Found::Corrupt(text@),
        }
    }
}

pub open spec fn key_len(key: Option<Seq<u8>>) -> nat {
    match key {
        Some(k) => k.len(),
        None => 0,
    }
}

/// The key's length field and the key.
pub open spec fn key_bytes(key: Option<Seq<u8>>) -> Seq<u8> {
    match key {
        None => le(0xffff_ffff, 4),
        Some(k) => le(k.len(), 4) + k,
    }
}

/// The bytes of a record that its checksum covers.
pub open spec fn body(r: RecordView) -> Seq<u8> {
    le(r.offset as nat, 8) + le(bits64(r.timestamp_ms), 8) + key_bytes(r.key) + le(
        r.value.len(),
        4,
    ) + r.value
}

/// A body behind its length and a checksum.
pub open spec fn sealed(body: Seq<u8>, crc: u32) -> Seq<u8> {
    le(4 + body.len(), 4) + le(crc as nat, 4) + body
}

/// The bytes of a record.
pub open spec fn encoding(r: RecordView) -> Seq<u8> {
    sealed(body(r), crc32(body(r)))
}

/// The number of bytes of a record.
pub open spec fn encoded_size(r: RecordView) -> nat {
    32 + key_len(r.key) + r.value.len()
}

/// The frame at the front of bytes.
pub enum Frame {
    Incomplete,
    Corrupt(Seq<char>),
    /// A whole frame of this many bytes.
    Whole(nat),
}

pub open spec fn too_small(len: nat) -> Seq<char> {
    "implausibly small record length "@ + decimal(len)
}

pub open spec fn too_long(len: nat, max: nat) -> Seq<char> {
    "record length "@ + decimal(len) + " exceeds configured max "@ + decimal(max)
}

pub open spec fn crc_mismatch(stored: u32, computed: u32) -> Seq<char> {
    "crc mismatch: stored 0x"@ + hex(stored as nat, 8) + ", computed 0x"@ + hex(
        computed as nat,
        8,
    )
}

pub open spec fn key_overrun(len: nat) -> Seq<char> {
    "key length "@ + decimal(len) + " overruns record"@
}

pub open spec fn value_mismatch(len: nat) -> Seq<char> {
    "value length "@ + decimal(len) + " does not match record length"@
}

/// What the length field at the front of `buf` says.
pub open spec fn frame_at(buf: Seq<u8>, max_record_bytes: u32) -> Frame {
    let len = le_value(buf.take(4));
    if buf.len() < 4 {
        Frame::Incomplete
    } else if len < 28 {
        Frame::Corrupt(too_small(len))
    } else if len > max_record_bytes {
        Frame::Corrupt(too_long(len, max_record_bytes as nat))
    } else if buf.len() < 4 + len {
        Frame::Incomplete
    } else {
        Frame::Whole(4 + len)
    }
}

/// The key field of a body, and where the value field starts, or what is wrong
/// with it.
pub open spec fn key_field(body: Seq<u8>) -> std::result::Result<
    (Option<Seq<u8>>, int),
    Seq<char>,
> {
    let n = signed32(le_value(body.subrange(16, 20)));
    if n < 0 {
        Ok((None, 20))
    } else if body.len() < 24 + n {
        Err(key_overrun(n as nat))
    } else {
        Ok((Some(body.subrange(20, 20 + n)), 20 + n))
    }
}

/// The record that a body holds, or what is wrong with it.
pub open spec fn parse_body(body: Seq<u8>) -> std::result::Result<RecordView, Seq<char>> {
    match key_field(body) {
        Err(text) => Err(text),
        Ok((key, pos)) => {
            let value_len = le_value(body.subrange(pos, pos + 4));
            if body.len() != pos + 4 + value_len {
                Err(value_mismatch(value_len))
            } else {
                Ok(
                    RecordView {
                        offset: le_value(body.take(8)) as u64,
                        timestamp_ms: signed64(le_value(body.subrange(8, 16))) as i64,
                        key,
                        value: body.skip(pos + 4),
                    },
                )
            }
        },
    }
}

/// What a whole frame of `total` bytes holds, given the checksum of its body.
pub open spec fn open_frame(buf: Seq<u8>, total: nat, crc: u32) -> Found {
    let stored = le_value(buf.subrange(4, 8)) as u32;
    if stored != crc {
        Found::Corrupt(crc_mismatch(stored, crc))
    } else {
        match parse_body(buf.subrange(8, total as int)) {
            Err(text) => Found::Corrupt(text),
            Ok(record) => Found::Record { record, consumed: total },
        }
    }
}

/// What stands at the front of `buf`.
#[verifier::opaque]
pub open spec fn decoding(buf: Seq<u8>, max_record_bytes: u32) -> Found {
    match frame_at(buf, max_record_bytes) {
        Frame::Incomplete => Found::Incomplete,
        Frame::Corrupt(text) => Found::Corrupt(text),
        Frame::Whole(total) => open_frame(buf, total, crc32(buf.subrange(8, total as int))),
    }
}

/// Whether a record can be stored with records of at most `max` bytes behind
/// the length field.
pub open spec fn storable(r: RecordView, max: u32) -> bool {
    encoded_size(r) - 4 <= max && key_len(r.key) <= 0x7fff_ffff
}

pub proof fn lemma_body_len(r: RecordView)
    ensures
        body(r).len() == encoded_size(r) - 8,
        encoding(r).len() == encoded_size(r),
{
    lemma_le_len(r.offset as nat, 8);
    lemma_le_len(bits64(r.timestamp_ms), 8);
    lemma_le_len(0xffff_ffff, 4);
    lemma_le_len(key_len(r.key), 4);
    lemma_le_len(r.value.len(), 4);
    lemma_le_len(4 + body(r).len(), 4);
    lemma_le_len(crc32(body(r)) as nat, 4);
}

proof fn lemma_parse_body(r: RecordView)
    requires
        key_len(r.key) <= 0x7fff_ffff,
        r.value.len() <= 0xffff_ffff,
    ensures
        parse_body(body(r)) == Ok::<RecordView, Seq<char>>(r),
{
    lemma_pow256_values();
    lemma_body_len(r);
    let b = body(r);
    let a0 = le(r.offset as nat, 8);
    let a1 = le(bits64(r.timestamp_ms), 8);
    let a3 = le(r.value.len(), 4);
    law_le_roundtrip(r.offset as nat, 8);
    law_le_roundtrip(bits64(r.timestamp_ms), 8);
    law_le_roundtrip(r.value.len(), 4);
    law_le_roundtrip(0xffff_ffff, 4);
    law_le_roundtrip(key_len(r.key), 4);
    assert(b.take(8) =~= a0);
    assert(b.subrange(8, 16) =~= a1);
    let pos = 20int + key_len(r.key);
    match r.key {
        None => {
            assert(b.subrange(16, 20) =~= le(0xffff_ffff, 4));
        },
        Some(k) => {
            assert(b.subrange(16, 20) =~= le(k.len(), 4));
            assert(b.subrange(20, pos) =~= k);
        },
    }
    assert(b.subrange(pos, pos + 4) =~= a3);
    assert(b.skip(pos + 4) =~= r.value);
}

/// Decoding an encoded record gives the record, whatever stands behind it.
pub proof fn law_record_roundtrip(r: RecordView, rest: Seq<u8>, max: u32)
    requires
        storable(r, max),
    ensures
        decoding(encoding(r) + rest, max) == (Found::Record {
            record: r,
            consumed: encoded_size(r),
        }),
{
    reveal(decoding);
    lemma_pow256_values();
    lemma_body_len(r);
    lemma_parse_body(r);
    let b = body(r);
    let s = encoding(r) + rest;
    law_le_roundtrip(4 + b.len(), 4);
    law_le_roundtrip(crc32(b) as nat, 4);
    assert(s.take(4) =~= le(4 + b.len(), 4));
    assert(s.subrange(4, 8) =~= le(crc32(b) as nat, 4));
    assert(s.subrange(8, 8int + b.len()) =~= b);
}

/// A record cut short is incomplete, wherever the cut is.
pub proof fn law_record_torn(r: RecordView, cut: int, max: u32)
    requires
        storable(r, max),
        0 <= cut < encoded_size(r),
    ensures
        decoding(encoding(r).take(cut), max) == Found::Incomplete,
{
    reveal(decoding);
    lemma_pow256_values();
    lemma_body_len(r);
    let b = body(r);
    let s = encoding(r).take(cut);
    law_le_roundtrip(4 + b.len(), 4);
    if cut >= 4 {
        assert(s.take(4) =~= le(4 + b.len(), 4));
    }
}

/// Nothing stands at the front of no bytes.
pub proof fn lemma_decoding_empty(max: u32)
    ensures
        decoding(Seq::empty(), max) == Found::Incomplete,
{
    reveal(decoding);
}

/// No record comes out of a frame whose stored checksum is not the checksum of
/// its body.
pub proof fn law_record_checked(buf: Seq<u8>, max: u32)
    ensures
        decoding(buf, max) matches Found::Record { record, consumed } ==> {
            &&& 32 <= consumed <= buf.len()
            &&& consumed - 4 <= max
            &&& le_value(buf.subrange(4, 8)) == crc32(buf.subrange(8, consumed as int))
            &&& parse_body(buf.subrange(8, consumed as int)) == Ok::<RecordView, Seq<char>>(record)
        },
{
    reveal(decoding);
    lemma_pow256_values();
    if buf.len() >= 8 {
        lemma_le_value_bound(buf.subrange(4, 8));
    }
}

/// A byte that was changed behind the length field of a stored record is found
/// out: the checksum says so.
pub proof fn law_record_changed(buf: Seq<u8>, max: u32, i: int, b: u8)
    requires
        decoding(buf, max) is Record,
        4 <= i < decoding(buf, max)->consumed,
        buf[i] != b,
    ensures
        decoding(buf.update(i, b), max) is Corrupt,
{
    reveal(decoding);
    let other = buf.update(i, b);
    let total = decoding(buf, max)->consumed as int;
    lemma_pow256_values();
    assert(other.take(4) =~= buf.take(4));
    let (crc, field) = (buf.subrange(8, total), buf.subrange(4, 8));
    lemma_le_value_bound(field);
    lemma_le_value_bound(other.subrange(4, 8));
    if i < 8 {
        assert(other.subrange(8, total) =~= crc);
        law_le_bytes(field);
        law_le_bytes(other.subrange(4, 8));
        assert(other.subrange(4, 8)[i - 4] != field[i - 4]);
    } else {
        assert(other.subrange(4, 8) =~= field);
        assert(other.subrange(8, total) =~= crc.update(i - 8, b));
        law_changed_byte(crc, i - 8, b);
    }
}

impl Record {
    /// Milliseconds since the epoch, as the clock gave them; 0 where the clock
    /// stands before the epoch.
    pub fn now_ms(since_epoch_ms: Option<u128>) -> (r: i64)
        ensures
            since_epoch_ms is None ==> r == 0,
            since_epoch_ms matches Some(ms) ==> ms <= i64::MAX ==> r == ms,
            since_epoch_ms matches Some(ms) ==> bits64(r) == ms as nat % 0x1_0000_0000_0000_0000,
    {
        match since_epoch_ms {
            None => 0,
            Some(ms) => from_bits64((ms % 0x1_0000_0000_0000_0000) as u64),
        }
    }

    /// The lengths of key and value together fit in memory.
    pub fn encoded_len(&self) -> (n: usize)
        requires
            encoded_size(self@) <= usize::MAX,
        ensures
            n == encoded_size(self@),
    {
        let key_len: usize = match &self.key {
            Some(k) => k.len(),
            None => 0,
        };
        LEN_FIELD_BYTES + CRC_FIELD_BYTES + MIN_BODY_BYTES + key_len + self.value.len()
    }

    /// The bytes that the checksum covers.
    pub fn encode_body(&self) -> (out: Vec<u8>)
        ensures
            out@ == body(self@),
    {
        let mut out: Vec<u8> = Vec::new();
        put_le(&mut out, self.offset, 8);
        put_le(&mut out, to_bits64(self.timestamp_ms), 8);
        assert(out@ =~= le(self.offset as nat, 8) + le(bits64(self.timestamp_ms), 8));
        let ghost head = out@;
        match &self.key {
            None => {
                put_le(&mut out, 0xffff_ffff, 4);
            },
            Some(k) => {
                put_le(&mut out, k.len() as u64, 4);
                out.extend_from_slice(k.as_slice());
            },
        }
        assert(out@ =~= head + key_bytes(self@.key));
        put_le(&mut out, self.value.len() as u64, 4);
        out.extend_from_slice(self.value.as_slice());
        assert(out@ =~= body(self@));
        out
    }

    /// Appends a body behind its length and checksum.
    pub fn seal(body: &[u8], crc: u32, out: &mut Vec<u8>)
        requires
            body@.len() + 4 <= usize::MAX,
        ensures
            final(out)@ == old(out)@ + sealed(body@, crc),
    {
        let ghost start = out@;
        put_le(out, (body.len() + CRC_FIELD_BYTES) as u64, 4);
        put_le(out, crc as u64, 4);
        out.extend_from_slice(body);
        assert(out@ =~= start + sealed(body@, crc));
    }

    pub fn encode(&self, out: &mut Vec<u8>)
        requires
            encoded_size(self@) <= usize::MAX,
        ensures
            final(out)@ == old(out)@ + encoding(self@),
    {
        let body: Vec<u8> = self.encode_body();
        proof {
            lemma_body_len(self@);
        }
        let crc: u32 = crc32fast::hash(body.as_slice());
        Record::seal(body.as_slice(), crc, out);
    }

    /// How long the frame at the front of `buf` is, or why there is none.
    pub fn frame(buf: &[u8], max_record_bytes: u32) -> (r: std::result::Result<
        usize,
        DecodeOutcome,
    >)
        ensures
            match frame_at(buf@, max_record_bytes) {
                Frame::Whole(total) => r is Ok && r->Ok_0 == total && 32 <= total <= buf@.len(),
                Frame::Incomplete => r is Err && r->Err_0@ == Found::Incomplete,
                Frame::Corrupt(text) => r is Err && r->Err_0@ == Found::Corrupt(text),
            },
    {
        if buf.len() < LEN_FIELD_BYTES {
            return Err(DecodeOutcome::Incomplete);
        }
        proof {
            lemma_pow256_values();
            lemma_le_value_bound(buf@.take(4));
            assert(buf@.subrange(0, 4) =~= buf@.take(4));
        }
        let len: u64 = get_le(slice_subrange(buf, 0, LEN_FIELD_BYTES));
        if len < (CRC_FIELD_BYTES + MIN_BODY_BYTES) as u64 {
            let mut text: String = "implausibly small record length ".to_owned();
            push_decimal(&mut text, len);
            return Err(DecodeOutcome::Corrupt(text));
        }
        if len > max_record_bytes as u64 {
            let mut text: String = "record length ".to_owned();
            push_decimal(&mut text, len);
            text.append(" exceeds configured max ");
            push_decimal(&mut text, max_record_bytes as u64);
            return Err(DecodeOutcome::Corrupt(text));
        }
        if ((buf.len() - LEN_FIELD_BYTES) as u64) < len {
            return Err(DecodeOutcome::Incomplete);
        }
        Ok(LEN_FIELD_BYTES + len as usize)
    }

    /// Opens a whole frame of `total` bytes, given the checksum of its body.
    pub fn open(buf: &[u8], total: usize, crc_actual: u32) -> (r: DecodeOutcome)
        requires
            32 <= total <= buf@.len(),
        ensures
            r@ == open_frame(buf@, total as nat, crc_actual),
    {
        proof {
            lemma_pow256_values();
            lemma_le_value_bound(buf@.subrange(4, 8));
        }
        let crc_stored: u32 = get_le(slice_subrange(buf, 4, 8)) as u32;
        if crc_stored != crc_actual {
            let mut text: String = "crc mismatch: stored 0x".to_owned();
            push_hex(&mut text, crc_stored as u64, 8);
            text.append(", computed 0x");
            push_hex(&mut text, crc_actual as u64, 8);
            return DecodeOutcome::Corrupt(text);
        }
        let body: &[u8] = slice_subrange(buf, 8, total);
        proof {
            lemma_le_value_bound(body@.take(8));
            lemma_le_value_bound(body@.subrange(16, 20));
            assert(body@.subrange(0, 8) =~= body@.take(8));
        }
        let offset: u64 = get_le(slice_subrange(body, 0, 8));
        let timestamp_ms: i64 = from_bits64(get_le(slice_subrange(body, 8, 16)));
        let key_len: i32 = from_bits32(get_le(slice_subrange(body, 16, 20)) as u32);
        let mut pos: usize = 20;
        let mut key: Option<Vec<u8>> = None;
        if key_len >= 0 {
            let kl: usize = key_len as usize;
            if body.len() - MIN_BODY_BYTES < kl {
                let mut text: String = "key length ".to_owned();
                push_decimal(&mut text, kl as u64);
                text.append(" overruns record");
                return DecodeOutcome::Corrupt(text);
            }
            key = Some(slice_to_vec(slice_subrange(body, pos, pos + kl)));
            pos = pos + kl;
        }
        proof {
            lemma_le_value_bound(body@.subrange(pos as int, pos + 4));
        }
        let value_len: u64 = get_le(slice_subrange(body, pos, pos + 4));
        pos = pos + 4;
        if (body.len() - pos) as u64 != value_len {
            let mut text: String = "value length ".to_owned();
            push_decimal(&mut text, value_len);
            text.append(" does not match record length");
            return DecodeOutcome::Corrupt(text);
        }
        let value: Vec<u8> = slice_to_vec(slice_subrange(body, pos, body.len()));
        assert(value@ =~= body@.skip(pos as int));
        DecodeOutcome::Record {
            record: Record { offset, timestamp_ms, key, value },
            consumed: total,
        }
    }

    pub fn decode(buf: &[u8], max_record_bytes: u32) -> (r: DecodeOutcome)
        ensures
            r@ == decoding(buf@, max_record_bytes),
    {
        proof {
            reveal(decoding);
        }
        match Record::frame(buf, max_record_bytes) {
            Ok(total) => {
                let crc_actual: u32 = crc32fast::hash(slice_subrange(buf, 8, total));
                Record::open(buf, total, crc_actual)
            },
            Err(outcome) => outcome,
        }
    }
}

} // verus!
