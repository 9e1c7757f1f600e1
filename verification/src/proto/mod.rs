//! Wire protocol: length-prefixed frames carrying hand-rolled little-endian
//! messages, shared verbatim by broker and clients.
//!
//! Frame layout (both directions):
//!
//! ```text
//! u32  len             length of everything after this field
//! u8   version         protocol version (currently 1)
//! u8   msg_type        request type; responses set the high bit (| 0x80)
//! u32  correlation_id  chosen by the client, echoed by the broker
//!      body            per message type
//! ```
//!
//! Correlation IDs make pipelining safe: responses may arrive out of order
//! (long-poll fetches), and the client routes each to its waiting caller.

pub mod copy;
pub mod fits;
pub mod layout_laws;
pub mod lists;
pub mod lookup;
pub mod meta;
pub mod request;
pub mod response;
pub mod schema;
pub mod wire;

pub use fits::{try_encode_request, try_encode_response};
pub use meta::{ClusterMeta, PartitionMeta, TopicMeta};
pub use request::{decode_request, encode_request, ProduceRecord, Request};
pub use response::{decode_response, encode_response, FetchedRecord, Response};

use crate::codec::{
    get_le, law_le_roundtrip, le, le_value, lemma_le_len, lemma_le_value_bound, lemma_pow256_values,
    put_le,
};
use crate::text::{decimal, hex_text, push_decimal, push_hex_text};
use schema::{
    append, encode, law_cut, law_parse_encode, lemma_append, parse, unknown_acks,
    unknown_error_code, Fault, Parsed, Shape, Shapes, Val, Vals,
};
use vstd::prelude::*;
use vstd::string::*;
use vstd::utf8::*;
use wire::{put_u32, put_u8, reads, Reader};

verus! {

pub const VERSION: u8 = 1;

pub const MAX_FRAME_BYTES: u32 = 33_554_432;

/// The high bit of the message type, set in responses.
pub const RESPONSE_BIT: u8 = 0x80;

#[derive(Debug)]
pub enum ProtoError {
    Truncated,
    Malformed(String),
    BadVersion(u8),
    UnknownMsgType(u8),
}

pub type Result<T> = std::result::Result<T, ProtoError>;

impl View for ProtoError {
    type V = Fault;

    open spec fn view(&self) -> Fault {
        match *self {
            ProtoError::Truncated => Fault::Truncated,
            ProtoError::Malformed(text) => Fault::Malformed(text@),
            ProtoError::BadVersion(v) => Fault::BadVersion(v),
            ProtoError::UnknownMsgType(t) => Fault::UnknownMsgType(t),
        }
    }
}

/// The text that describes a protocol error.
pub open spec fn error_text(f: Fault) -> Seq<char> {
    match f {
        Fault::Truncated => "frame truncated"@,
        Fault::Malformed(text) => "malformed frame: "@ + text,
        Fault::BadVersion(v) => "unsupported protocol version "@ + decimal(v as nat),
        Fault::UnknownMsgType(t) => "unknown message type 0x"@ + hex_text(t as nat),
    }
}

impl ProtoError {
    /// The text that describes this error.
    pub fn message(&self) -> (text: String)
        ensures
            text@ == error_text(self@),
    {
        match self {
            ProtoError::Truncated => "frame truncated".to_owned(),
            ProtoError::Malformed(detail) => {
                let mut text: String = "malformed frame: ".to_owned();
                text.append(detail.as_str());
                text
            },
            ProtoError::BadVersion(v) => {
                let mut text: String = "unsupported protocol version ".to_owned();
                push_decimal(&mut text, *v as u64);
                text
            },
            ProtoError::UnknownMsgType(t) => {
                let mut text: String = "unknown message type 0x".to_owned();
                push_hex_text(&mut text, *t as u64);
                text
            },
        }
    }
}

#[derive(Debug, Clone, Copy, PartialEq, Eq, Structural)]
pub enum ErrorCode {
    NoError,
    UnknownTopicOrPartition,
    OffsetOutOfRange,
    Storage,
    Malformed,
    TopicExists,
    UnknownMember,
    /// The caller's group generation is behind: a rebalance happened. The
    /// only correct reaction is to rejoin and pick up the new assignment.
    StaleGeneration,
    /// This broker does not lead the partition; refresh metadata and retry.
    NotLeader,
    /// The caller's leader epoch is behind the partition's current epoch.
    FencedEpoch,
    /// acks=all rejected: the ISR is smaller than min_insync_replicas.
    NotEnoughReplicas,
    /// The partition has no live leader (no unclean election).
    Offline,
}

impl ErrorCode {
    /// The number that stands for the code on the wire.
    pub open spec fn number(self) -> u16 {
        match self {
            ErrorCode::NoError => 0,
            ErrorCode::UnknownTopicOrPartition => 1,
            ErrorCode::OffsetOutOfRange => 2,
            ErrorCode::Storage => 3,
            ErrorCode::Malformed => 4,
            ErrorCode::TopicExists => 5,
            ErrorCode::UnknownMember => 6,
            ErrorCode::StaleGeneration => 7,
            ErrorCode::NotLeader => 8,
            ErrorCode::FencedEpoch => 9,
            ErrorCode::NotEnoughReplicas => 10,
            ErrorCode::Offline => 11,
        }
    }

    /// The number that stands for the code on the wire.
    pub fn to_u16(self) -> (n: u16)
        ensures
            n == self.number(),
            n <= 11,
    {
        match self {
            ErrorCode::NoError => 0,
            ErrorCode::UnknownTopicOrPartition => 1,
            ErrorCode::OffsetOutOfRange => 2,
            ErrorCode::Storage => 3,
            ErrorCode::Malformed => 4,
            ErrorCode::TopicExists => 5,
            ErrorCode::UnknownMember => 6,
            ErrorCode::StaleGeneration => 7,
            ErrorCode::NotLeader => 8,
            ErrorCode::FencedEpoch => 9,
            ErrorCode::NotEnoughReplicas => 10,
            ErrorCode::Offline => 11,
        }
    }

    /// The code that a number stands for.
    pub fn from_u16(v: u16) -> (r: Result<Self>)
        ensures
            r is Ok <==> v <= 11,
            r is Ok ==> r->Ok_0.number() == v,
            r is Err ==> r->Err_0@ == Fault::Malformed(unknown_error_code(v as nat)),
    {
        if v == 0 {
            Ok(ErrorCode::NoError)
        } else if v == 1 {
            Ok(ErrorCode::UnknownTopicOrPartition)
        } else if v == 2 {
            Ok(ErrorCode::OffsetOutOfRange)
        } else if v == 3 {
            Ok(ErrorCode::Storage)
        } else if v == 4 {
            Ok(ErrorCode::Malformed)
        } else if v == 5 {
            Ok(ErrorCode::TopicExists)
        } else if v == 6 {
            Ok(ErrorCode::UnknownMember)
        } else if v == 7 {
            Ok(ErrorCode::StaleGeneration)
        } else if v == 8 {
            Ok(ErrorCode::NotLeader)
        } else if v == 9 {
            Ok(ErrorCode::FencedEpoch)
        } else if v == 10 {
            Ok(ErrorCode::NotEnoughReplicas)
        } else if v == 11 {
            Ok(ErrorCode::Offline)
        } else {
            let mut text: String = "unknown error code ".to_owned();
            push_decimal(&mut text, v as u64);
            Err(ProtoError::Malformed(text))
        }
    }

    /// The name that messages give the code.
    pub open spec fn label(self) -> Seq<char> {
        match self {
            ErrorCode::NoError => "None"@,
            ErrorCode::UnknownTopicOrPartition => "UnknownTopicOrPartition"@,
            ErrorCode::OffsetOutOfRange => "OffsetOutOfRange"@,
            ErrorCode::Storage => "Storage"@,
            ErrorCode::Malformed => "Malformed"@,
            ErrorCode::TopicExists => "TopicExists"@,
            ErrorCode::UnknownMember => "UnknownMember"@,
            ErrorCode::StaleGeneration => "StaleGeneration"@,
            ErrorCode::NotLeader => "NotLeader"@,
            ErrorCode::FencedEpoch => "FencedEpoch"@,
            ErrorCode::NotEnoughReplicas => "NotEnoughReplicas"@,
            ErrorCode::Offline => "Offline"@,
        }
    }

    /// The name that messages give the code.
    pub fn name(self) -> (r: &'static str)
        ensures
            r@ == self.label(),
    {
        match self {
            ErrorCode::NoError => "None",
            ErrorCode::UnknownTopicOrPartition => "UnknownTopicOrPartition",
            ErrorCode::OffsetOutOfRange => "OffsetOutOfRange",
            ErrorCode::Storage => "Storage",
            ErrorCode::Malformed => "Malformed",
            ErrorCode::TopicExists => "TopicExists",
            ErrorCode::UnknownMember => "UnknownMember",
            ErrorCode::StaleGeneration => "StaleGeneration",
            ErrorCode::NotLeader => "NotLeader",
            ErrorCode::FencedEpoch => "FencedEpoch",
            ErrorCode::NotEnoughReplicas => "NotEnoughReplicas",
            ErrorCode::Offline => "Offline",
        }
    }

    /// Reads a code behind the bytes read so far.
    pub fn read(r: &mut Reader<'_>) -> (res: Result<Self>)
        ensures
            reads(Shape::Error, old(r)@, final(r)@, res, |x: ErrorCode| Val::Error(x.number())),
    {
        let n: u16 = r.u16()?;
        ErrorCode::from_u16(n)
    }
}

/// When the broker acknowledges a produce.
///
/// `Durable` is the strongest single-broker contract: the ack is held until the
/// covering flush completes. A broker running `FsyncPolicy::Os` never flushes,
/// so there it degrades to `Written` — acks cannot strengthen the broker's
/// configured durability, only choose how much of it to wait for.
#[derive(Debug, Clone, Copy, PartialEq, Eq, Structural)]
pub enum Acks {
    /// Fire-and-forget: the broker sends no response frame at all.
    NoAck,
    /// Acked once appended to the log (page cache).
    Written,
    /// Acked once the covering flush has reached stable media.
    Durable,
    /// Acked once every in-sync replica has the record (HWM has passed it).
    /// Durability by replication — followers ack on write, not flush.
    All,
}

impl Acks {
    /// The number that stands for the level on the wire.
    pub open spec fn number(self) -> u8 {
        match self {
            Acks::NoAck => 0,
            Acks::Written => 1,
            Acks::Durable => 2,
            Acks::All => 3,
        }
    }

    /// The number that stands for the level on the wire.
    pub fn to_u8(self) -> (n: u8)
        ensures
            n == self.number(),
            n <= 3,
    {
        match self {
            Acks::NoAck => 0,
            Acks::Written => 1,
            Acks::Durable => 2,
            Acks::All => 3,
        }
    }

    /// The level that a number stands for.
    pub fn from_u8(v: u8) -> (r: Result<Self>)
        ensures
            r is Ok <==> v <= 3,
            r is Ok ==> r->Ok_0.number() == v,
            r is Err ==> r->Err_0@ == Fault::Malformed(unknown_acks(v as nat)),
    {
        if v == 0 {
            Ok(Acks::NoAck)
        } else if v == 1 {
            Ok(Acks::Written)
        } else if v == 2 {
            Ok(Acks::Durable)
        } else if v == 3 {
            Ok(Acks::All)
        } else {
            let mut text: String = "unknown acks value ".to_owned();
            push_decimal(&mut text, v as u64);
            Err(ProtoError::Malformed(text))
        }
    }

    /// Reads a level behind the bytes read so far.
    pub fn read(r: &mut Reader<'_>) -> (res: Result<Self>)
        ensures
            reads(Shape::Acks, old(r)@, final(r)@, res, |x: Acks| Val::Acks(x.number())),
    {
        let n: u8 = r.u8()?;
        Acks::from_u8(n)
    }
}

/// An optional blob as a value.
pub open spec fn opt_view(b: Option<Vec<u8>>) -> Option<Seq<u8>> {
    match b {
        Some(b) => Some(b@),
        None => None,
    }
}

/// A field before other fields.
#[verifier::inline]
pub open spec fn field(first: Shape, rest: Shapes) -> Shapes {
    Shapes::Then(first, Box::new(rest))
}

/// A value before other values.
#[verifier::inline]
pub open spec fn value(first: Val, rest: Vals) -> Vals {
    Vals::Then(first, Box::new(rest))
}

/// What reading a row of fields from `before` gives.
pub open spec fn reads_row<T>(
    shapes: Shapes,
    before: Seq<u8>,
    after: Seq<u8>,
    r: Result<T>,
    vals: spec_fn(T) -> Vals,
) -> bool {
    match parse(shapes, before) {
        Ok((vs, rest)) => r is Ok && vals(r->Ok_0) == vs && after == rest,
        Err(e) => r is Err && r->Err_0@ == e,
    }
}

/// The header fields behind the length field.
pub open spec fn header_vals(msg_type: u8, correlation_id: u32) -> Vals {
    value(
        Val::U8(VERSION),
        value(Val::U8(msg_type), value(Val::U32(correlation_id), Vals::End)),
    )
}

/// The bytes of a message: everything behind the length field.
pub open spec fn message(msg_type: u8, correlation_id: u32, body: Vals) -> Seq<u8> {
    encode(header_vals(msg_type, correlation_id)) + encode(body)
}

/// A frame: the length of a message, and the message.
pub open spec fn frame(msg_type: u8, correlation_id: u32, body: Vals) -> Seq<u8> {
    let m = message(msg_type, correlation_id, body);
    le(m.len(), 4) + m
}

/// The bytes of a frame under construction, with its body as far as `body`.
pub open spec fn draft(msg_type: u8, correlation_id: u32, body: Vals) -> Seq<u8> {
    append(append(seq![0u8, 0u8, 0u8, 0u8], header_vals(msg_type, correlation_id)), body)
}

/// What a message is read as: its correlation id, type and body.
pub open spec fn parse_message(
    s: Seq<u8>,
    shape_of: spec_fn(u8) -> Option<Shapes>,
) -> std::result::Result<(u32, u8, Vals), Fault> {
    match parse_header(s) {
        Err(e) => Err(e),
        Ok(((tag, corr), t)) => match shape_of(tag) {
            None => Err(Fault::UnknownMsgType(tag)),
            Some(shapes) => match parse(shapes, t) {
                Err(e) => Err(e),
                Ok((vs, rest)) => if rest.len() == 0 {
                    Ok((corr, tag, vs))
                } else {
                    Err(Fault::Malformed(schema::trailing_bytes(rest.len())))
                },
            },
        },
    }
}

/// The message type and correlation id that a header holds.
pub open spec fn parse_header(s: Seq<u8>) -> Parsed<(u8, u32)> {
    match schema::parse_uint(s, 1) {
        Err(e) => Err(e),
        Ok((version, t)) => if version != VERSION {
            Err(Fault::BadVersion(version as u8))
        } else {
            match schema::parse_uint(t, 1) {
                Err(e) => Err(e),
                Ok((tag, u)) => match schema::parse_uint(u, 4) {
                    Err(e) => Err(e),
                    Ok((corr, w)) => Ok(((tag as u8, corr as u32), w)),
                },
            }
        },
    }
}

/// A message whose values have their shapes and fit reads back as it was.
pub proof fn law_message_roundtrip(
    tag: u8,
    corr: u32,
    body: Vals,
    shape_of: spec_fn(u8) -> Option<Shapes>,
)
    requires
        shape_of(tag) is Some,
        schema::shaped(body, shape_of(tag)->0),
        schema::fits(body),
    ensures
        parse_message(frame(tag, corr, body).skip(4), shape_of) == Ok::<(u32, u8, Vals), Fault>(
            (corr, tag, body),
        ),
{
    let m = message(tag, corr, body);
    lemma_le_len(m.len(), 4);
    assert(frame(tag, corr, body).skip(4) =~= m);
    lemma_header(tag, corr, encode(body));
    law_parse_encode(body, shape_of(tag)->0, Seq::empty());
    assert(encode(body) + Seq::<u8>::empty() =~= encode(body));
}

proof fn lemma_header(tag: u8, corr: u32, rest: Seq<u8>)
    ensures
        encode(header_vals(tag, corr)).len() == 6,
        parse_header(encode(header_vals(tag, corr)) + rest) == Ok::<((u8, u32), Seq<u8>), Fault>(
            ((tag, corr), rest),
        ),
{
    let head = header_vals(tag, corr);
    let a = le(VERSION as nat, 1);
    let b = le(tag as nat, 1);
    let c = le(corr as nat, 4);
    reveal_with_fuel(encode, 4);
    lemma_pow256_values();
    law_le_roundtrip(VERSION as nat, 1);
    law_le_roundtrip(tag as nat, 1);
    law_le_roundtrip(corr as nat, 4);
    let s = encode(head) + rest;
    assert(s =~= a + (b + (c + rest)));
    assert(s.take(1) =~= a);
    assert(s.skip(1) =~= b + (c + rest));
    assert((b + (c + rest)).take(1) =~= b);
    assert((b + (c + rest)).skip(1) =~= c + rest);
    assert((c + rest).take(4) =~= c);
    assert((c + rest).skip(4) =~= rest);
}

/// A message that is cut short is truncated, wherever the cut is.
pub proof fn law_message_truncated(
    tag: u8,
    corr: u32,
    body: Vals,
    shape_of: spec_fn(u8) -> Option<Shapes>,
    cut: int,
)
    requires
        shape_of(tag) is Some,
        schema::shaped(body, shape_of(tag)->0),
        schema::fits(body),
        0 <= cut < message(tag, corr, body).len(),
    ensures
        parse_message(frame(tag, corr, body).skip(4).take(cut), shape_of) == Err::<
            (u32, u8, Vals),
            Fault,
        >(Fault::Truncated),
{
    let m = message(tag, corr, body);
    lemma_le_len(m.len(), 4);
    assert(frame(tag, corr, body).skip(4) =~= m);
    let head = encode(header_vals(tag, corr));
    lemma_header(tag, corr, encode(body));
    law_parse_encode(body, shape_of(tag)->0, Seq::empty());
    assert(encode(body) + Seq::<u8>::empty() =~= encode(body));
    if cut >= 6 {
        lemma_header(tag, corr, encode(body).take(cut - 6));
        assert(m.take(cut) =~= head + encode(body).take(cut - 6));
        law_cut(shape_of(tag)->0, encode(body), cut - 6);
    } else {
        let s = m.take(cut);
        if cut >= 1 {
            assert(s.take(1) =~= m.take(1));
            assert(s.skip(1) =~= m.skip(1).take(cut - 1));
        }
        if cut >= 2 {
            assert(s.skip(1).take(1) =~= m.skip(1).take(1));
        }
    }
}

/// A message with bytes behind it is malformed.
pub proof fn law_message_trailing(
    tag: u8,
    corr: u32,
    body: Vals,
    shape_of: spec_fn(u8) -> Option<Shapes>,
    extra: Seq<u8>,
)
    requires
        shape_of(tag) is Some,
        schema::shaped(body, shape_of(tag)->0),
        schema::fits(body),
        extra.len() > 0,
    ensures
        parse_message(frame(tag, corr, body).skip(4) + extra, shape_of) == Err::<
            (u32, u8, Vals),
            Fault,
        >(Fault::Malformed(schema::trailing_bytes(extra.len()))),
{
    let m = message(tag, corr, body);
    lemma_le_len(m.len(), 4);
    assert(frame(tag, corr, body).skip(4) =~= m);
    assert(m + extra =~= encode(header_vals(tag, corr)) + (encode(body) + extra));
    lemma_header(tag, corr, encode(body) + extra);
    law_parse_encode(body, shape_of(tag)->0, extra);
}

/// Starts a frame with a length field that is still to be filled in.
pub(crate) fn frame_header(out: &mut Vec<u8>, msg_type: u8, correlation_id: u32)
    requires
        old(out)@.len() == 0,
    ensures
        final(out)@ == draft(msg_type, correlation_id, Vals::End),
{
    out.push(0);
    out.push(0);
    out.push(0);
    out.push(0);
    assert(out@ =~= seq![0u8, 0u8, 0u8, 0u8]);
    put_u8(out, VERSION);
    put_u8(out, msg_type);
    put_u32(out, correlation_id);
    proof {
        reveal_with_fuel(append, 4);
    }
}

/// Fills in the length field.
pub(crate) fn finish_frame(out: Vec<u8>) -> (r: Vec<u8>)
    requires
        out@.len() >= 4,
    ensures
        r@ == le((out@.len() - 4) as nat, 4) + out@.skip(4),
{
    let ghost rest = out@.skip(4);
    let mut out: Vec<u8> = out;
    let mut len: Vec<u8> = Vec::new();
    put_le(&mut len, (out.len() - 4) as u64, 4);
    proof {
        lemma_le_len((out@.len() - 4) as nat, 4);
        assert(len@ =~= le((out@.len() - 4) as nat, 4));
    }
    out.set(0, len[0]);
    out.set(1, len[1]);
    out.set(2, len[2]);
    out.set(3, len[3]);
    assert(out@ =~= len@ + rest);
    out
}

/// Filling in the length field of a draft gives the frame.
pub proof fn lemma_draft_frame(msg_type: u8, correlation_id: u32, body: Vals)
    ensures
        ({
            let d = draft(msg_type, correlation_id, body);
            &&& d.len() >= 4
            &&& le((d.len() - 4) as nat, 4) + d.skip(4) == frame(msg_type, correlation_id, body)
        }),
{
    let zeros = seq![0u8, 0u8, 0u8, 0u8];
    let head = header_vals(msg_type, correlation_id);
    lemma_append(zeros, head);
    lemma_append(zeros + encode(head), body);
    let d = draft(msg_type, correlation_id, body);
    let m = message(msg_type, correlation_id, body);
    assert(d =~= zeros + m);
    assert(d.skip(4) =~= m);
}

pub(crate) fn read_header(r: &mut Reader<'_>) -> (res: Result<(u8, u32)>)
    ensures
        match parse_header(old(r)@) {
            Ok((h, rest)) => res == Ok::<(u8, u32), ProtoError>(h) && final(r)@ == rest,
            Err(e) => res is Err && res->Err_0@ == e,
        },
{
    proof {
        lemma_pow256_values();
        lemma_le_value_bound(r@.take(1));
    }
    let version: u8 = r.u8()?;
    if version != VERSION {
        return Err(ProtoError::BadVersion(version));
    }
    let msg_type: u8 = r.u8()?;
    let correlation_id: u32 = r.u32()?;
    Ok((msg_type, correlation_id))
}

/// The length that a frame's length field announces, where a frame may have it.
pub fn frame_length(field: [u8; 4]) -> (r: std::result::Result<u32, String>)
    ensures
        r is Ok <==> 0 < le_value(field@) <= MAX_FRAME_BYTES,
        r is Ok ==> r->Ok_0 == le_value(field@),
        r is Err ==> r->Err_0@ == "frame length "@ + decimal(le_value(field@)) + " out of bounds"@,
{
    proof {
        lemma_pow256_values();
        lemma_le_value_bound(field@);
    }
    let len: u64 = get_le(&field);
    if len == 0 || len > MAX_FRAME_BYTES as u64 {
        let mut text: String = "frame length ".to_owned();
        push_decimal(&mut text, len);
        text.append(" out of bounds");
        return Err(text);
    }
    Ok(len as u32)
}

} // verus!
