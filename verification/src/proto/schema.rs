//! The grammar of message bodies.
//!
//! A message body is a row of fields. `Shapes` says which fields a message
//! has, `Vals` holds their values, `encode` gives the bytes of the values and
//! `parse` reads them back. The laws at the end hold of every grammar that can
//! be written this way.

use crate::codec::{
    bits32, bits64, law_le_roundtrip, le, le_value, lemma_le_value_bound, lemma_pow256_values,
    pow256, signed32, signed64,
};
use crate::text::decimal;
use vstd::prelude::*;
use vstd::utf8::*;

verus! {

/// What one field of a message holds.
pub enum Shape {
    U8,
    U16,
    U32,
    U64,
    I32,
    I64,
    /// UTF-8 text behind a two-byte length.
    Str,
    /// Bytes behind a four-byte length.
    Bytes,
    /// Bytes behind a signed four-byte length; a negative length is "none".
    OptBytes,
    /// One byte, at most 3.
    Acks,
    /// Two bytes, at most 11.
    Error,
    /// A four-byte count and as many rows.
    List(Box<Shapes>),
}

/// A row of fields.
pub enum Shapes {
    End,
    Then(Shape, Box<Shapes>),
}

/// The value of one field.
pub enum Val {
    U8(u8),
    U16(u16),
    U32(u32),
    U64(u64),
    I32(i32),
    I64(i64),
    Str(Seq<char>),
    Bytes(Seq<u8>),
    OptBytes(Option<Seq<u8>>),
    Acks(u8),
    Error(u16),
    List(Seq<Vals>),
}

/// The values of a row.
pub enum Vals {
    End,
    Then(Val, Box<Vals>),
}

/// Why bytes are not a message.
pub enum Fault {
    Truncated,
    Malformed(Seq<char>),
    BadVersion(u8),
    UnknownMsgType(u8),
}

/// Reading leaves a value and the bytes behind it, or finds a fault.
pub type Parsed<T> = Result<(T, Seq<u8>), Fault>;

pub open spec fn parse_uint(s: Seq<u8>, width: nat) -> Parsed<nat> {
    if s.len() < width {
        Err(Fault::Truncated)
    } else {
        Ok((le_value(s.take(width as int)), s.skip(width as int)))
    }
}

pub open spec fn parse_blob(s: Seq<u8>, len: nat) -> Parsed<Seq<u8>> {
    if s.len() < len {
        Err(Fault::Truncated)
    } else {
        Ok((s.take(len as int), s.skip(len as int)))
    }
}

pub open spec fn parse_str(s: Seq<u8>) -> Parsed<Seq<char>> {
    match parse_uint(s, 2) {
        Err(e) => Err(e),
        Ok((n, t)) => match parse_blob(t, n) {
            Err(e) => Err(e),
            Ok((b, u)) => if valid_utf8(b) {
                Ok((decode_utf8(b), u))
            } else {
                Err(Fault::Malformed("invalid utf-8 in string"@))
            },
        },
    }
}

pub open spec fn parse_bytes(s: Seq<u8>) -> Parsed<Seq<u8>> {
    match parse_uint(s, 4) {
        Err(e) => Err(e),
        Ok((n, t)) => parse_blob(t, n),
    }
}

pub open spec fn parse_opt_bytes(s: Seq<u8>) -> Parsed<Option<Seq<u8>>> {
    match parse_uint(s, 4) {
        Err(e) => Err(e),
        Ok((n, t)) => if signed32(n) < 0 {
            Ok((None, t))
        } else {
            match parse_blob(t, n) {
                Err(e) => Err(e),
                Ok((b, u)) => Ok((Some(b), u)),
            }
        },
    }
}

pub open spec fn unknown_acks(n: nat) -> Seq<char> {
    "unknown acks value "@ + decimal(n)
}

pub open spec fn unknown_error_code(n: nat) -> Seq<char> {
    "unknown error code "@ + decimal(n)
}

pub open spec fn trailing_bytes(n: nat) -> Seq<char> {
    decimal(n) + " trailing bytes after message body"@
}

/// Reads one field.
pub open spec fn parse_one(shape: Shape, s: Seq<u8>) -> Parsed<Val>
    decreases shape, 0int, 0int,
{
    match shape {
        Shape::U8 => match parse_uint(s, 1) {
            Err(e) => Err(e),
            Ok((n, t)) => Ok((Val::U8(n as u8), t)),
        },
        Shape::U16 => match parse_uint(s, 2) {
            Err(e) => Err(e),
            Ok((n, t)) => Ok((Val::U16(n as u16), t)),
        },
        Shape::U32 => match parse_uint(s, 4) {
            Err(e) => Err(e),
            Ok((n, t)) => Ok((Val::U32(n as u32), t)),
        },
        Shape::U64 => match parse_uint(s, 8) {
            Err(e) => Err(e),
            Ok((n, t)) => Ok((Val::U64(n as u64), t)),
        },
        Shape::I32 => match parse_uint(s, 4) {
            Err(e) => Err(e),
            Ok((n, t)) => Ok((Val::I32(signed32(n) as i32), t)),
        },
        Shape::I64 => match parse_uint(s, 8) {
            Err(e) => Err(e),
            Ok((n, t)) => Ok((Val::I64(signed64(n) as i64), t)),
        },
        Shape::Str => match parse_str(s) {
            Err(e) => Err(e),
            Ok((c, t)) => Ok((Val::Str(c), t)),
        },
        Shape::Bytes => match parse_bytes(s) {
            Err(e) => Err(e),
            Ok((b, t)) => Ok((Val::Bytes(b), t)),
        },
        Shape::OptBytes => match parse_opt_bytes(s) {
            Err(e) => Err(e),
            Ok((b, t)) => Ok((Val::OptBytes(b), t)),
        },
        Shape::Acks => match parse_uint(s, 1) {
            Err(e) => Err(e),
            Ok((n, t)) => if n <= 3 {
                Ok((Val::Acks(n as u8), t))
            } else {
                Err(Fault::Malformed(unknown_acks(n)))
            },
        },
        Shape::Error => match parse_uint(s, 2) {
            Err(e) => Err(e),
            Ok((n, t)) => if n <= 11 {
                Ok((Val::Error(n as u16), t))
            } else {
                Err(Fault::Malformed(unknown_error_code(n)))
            },
        },
        Shape::List(row) => match parse_uint(s, 4) {
            Err(e) => Err(e),
            Ok((n, t)) => match parse_rows(*row, n, t) {
                Err(e) => Err(e),
                Ok((rows, u)) => Ok((Val::List(rows), u)),
            },
        },
    }
}

/// Reads a row of fields.
pub open spec fn parse(shapes: Shapes, s: Seq<u8>) -> Parsed<Vals>
    decreases shapes, 0int, 0int,
{
    match shapes {
        Shapes::End => Ok((Vals::End, s)),
        Shapes::Then(first, rest) => match parse_one(first, s) {
            Err(e) => Err(e),
            Ok((v, t)) => match parse(*rest, t) {
                Err(e) => Err(e),
                Ok((vs, u)) => Ok((Vals::Then(v, Box::new(vs)), u)),
            },
        },
    }
}

/// Reads `n` rows of one shape.
pub open spec fn parse_rows(row: Shapes, n: nat, s: Seq<u8>) -> Parsed<Seq<Vals>>
    decreases row, 1int, n,
{
    if n == 0 {
        Ok((Seq::empty(), s))
    } else {
        match parse(row, s) {
            Err(e) => Err(e),
            Ok((v, t)) => match parse_rows(row, (n - 1) as nat, t) {
                Err(e) => Err(e),
                Ok((vs, u)) => Ok((seq![v] + vs, u)),
            },
        }
    }
}

/// The bytes of one field.
pub open spec fn encode_one(v: Val) -> Seq<u8>
    decreases v,
{
    match v {
        Val::U8(n) => le(n as nat, 1),
        Val::U16(n) => le(n as nat, 2),
        Val::U32(n) => le(n as nat, 4),
        Val::U64(n) => le(n as nat, 8),
        Val::I32(n) => le(bits32(n), 4),
        Val::I64(n) => le(bits64(n), 8),
        Val::Str(c) => le(encode_utf8(c).len(), 2) + encode_utf8(c),
        Val::Bytes(b) => le(b.len(), 4) + b,
        Val::OptBytes(b) => match b {
            None => le(0xffff_ffff, 4),
            Some(b) => le(b.len(), 4) + b,
        },
        Val::Acks(n) => le(n as nat, 1),
        Val::Error(n) => le(n as nat, 2),
        Val::List(rows) => le(rows.len(), 4) + encode_rows(rows),
    }
}

/// The bytes of a row.
pub open spec fn encode(vs: Vals) -> Seq<u8>
    decreases vs,
{
    match vs {
        Vals::End => Seq::empty(),
        Vals::Then(v, rest) => encode_one(v) + encode(*rest),
    }
}

/// The bytes of rows, one behind the other.
pub open spec fn encode_rows(rows: Seq<Vals>) -> Seq<u8>
    decreases rows,
{
    if rows.len() == 0 {
        Seq::empty()
    } else {
        encode_rows(rows.drop_last()) + encode(rows.last())
    }
}

/// The bytes `out` with those of a row behind them.
pub open spec fn append(out: Seq<u8>, vs: Vals) -> Seq<u8>
    decreases vs,
{
    match vs {
        Vals::End => out,
        Vals::Then(v, rest) => append(out + encode_one(v), *rest),
    }
}

/// Whether a value has a shape.
pub open spec fn shaped_one(v: Val, shape: Shape) -> bool
    decreases v,
{
    match (v, shape) {
        (Val::U8(_), Shape::U8) => true,
        (Val::U16(_), Shape::U16) => true,
        (Val::U32(_), Shape::U32) => true,
        (Val::U64(_), Shape::U64) => true,
        (Val::I32(_), Shape::I32) => true,
        (Val::I64(_), Shape::I64) => true,
        (Val::Str(_), Shape::Str) => true,
        (Val::Bytes(_), Shape::Bytes) => true,
        (Val::OptBytes(_), Shape::OptBytes) => true,
        (Val::Acks(n), Shape::Acks) => n <= 3,
        (Val::Error(n), Shape::Error) => n <= 11,
        (Val::List(rows), Shape::List(row)) => forall|i: int|
            0 <= i < rows.len() ==> shaped(#[trigger] rows[i], *row),
        _ => false,
    }
}

pub open spec fn shaped(vs: Vals, shapes: Shapes) -> bool
    decreases vs,
{
    match (vs, shapes) {
        (Vals::End, Shapes::End) => true,
        (Vals::Then(v, vr), Shapes::Then(s, sr)) => shaped_one(v, s) && shaped(*vr, *sr),
        _ => false,
    }
}

/// Whether the lengths in a value fit their length fields.
pub open spec fn fits_one(v: Val) -> bool
    decreases v,
{
    match v {
        Val::Str(c) => encode_utf8(c).len() <= 0xffff,
        Val::Bytes(b) => b.len() <= 0xffff_ffff,
        Val::OptBytes(b) => b is Some ==> b->0.len() <= 0x7fff_ffff,
        Val::List(rows) => rows.len() <= 0xffff_ffff && forall|i: int|
            0 <= i < rows.len() ==> fits(#[trigger] rows[i]),
        _ => true,
    }
}

pub open spec fn fits(vs: Vals) -> bool
    decreases vs,
{
    match vs {
        Vals::End => true,
        Vals::Then(v, rest) => fits_one(v) && fits(*rest),
    }
}

/// Whether every text in a value fits its length field.
pub open spec fn texts_fit_one(v: Val) -> bool
    decreases v,
{
    match v {
        Val::Str(c) => encode_utf8(c).len() <= 0xffff,
        Val::List(rows) => forall|i: int| 0 <= i < rows.len() ==> texts_fit(#[trigger] rows[i]),
        _ => true,
    }
}

/// Whether every text in a row fits its length field.
pub open spec fn texts_fit(vs: Vals) -> bool
    decreases vs,
{
    match vs {
        Vals::End => true,
        Vals::Then(v, rest) => texts_fit_one(v) && texts_fit(*rest),
    }
}

pub proof fn lemma_texts_fit_row(v: Val, i: int)
    requires
        v is List,
        texts_fit_one(v),
        0 <= i < v->List_0.len(),
    ensures
        texts_fit(v->List_0[i]),
{
}

pub proof fn lemma_append(out: Seq<u8>, vs: Vals)
    ensures
        append(out, vs) == out + encode(vs),
    decreases vs,
{
    match vs {
        Vals::End => {
            assert(out =~= out + encode(vs));
        },
        Vals::Then(v, rest) => {
            lemma_append(out + encode_one(v), *rest);
            assert(append(out, vs) =~= out + encode(vs));
        },
    }
}

proof fn lemma_parse_uint(v: nat, width: nat, rest: Seq<u8>)
    requires
        v < pow256(width),
    ensures
        parse_uint(le(v, width) + rest, width) == Ok::<(nat, Seq<u8>), Fault>((v, rest)),
{
    law_le_roundtrip(v, width);
    let s = le(v, width) + rest;
    assert(s.take(width as int) =~= le(v, width));
    assert(s.skip(width as int) =~= rest);
}

proof fn lemma_parse_blob(b: Seq<u8>, rest: Seq<u8>)
    ensures
        parse_blob(b + rest, b.len()) == Ok::<(Seq<u8>, Seq<u8>), Fault>((b, rest)),
{
    assert((b + rest).take(b.len() as int) =~= b);
    assert((b + rest).skip(b.len() as int) =~= rest);
}

/// Reading the bytes of a field gives the field, and leaves what stands behind.
pub proof fn law_parse_encode_one(v: Val, shape: Shape, rest: Seq<u8>)
    requires
        shaped_one(v, shape),
        fits_one(v),
    ensures
        parse_one(shape, encode_one(v) + rest) == Ok::<(Val, Seq<u8>), Fault>((v, rest)),
    decreases v,
{
    lemma_pow256_values();
    let s = encode_one(v) + rest;
    match v {
        Val::U8(n) => lemma_parse_uint(n as nat, 1, rest),
        Val::U16(n) => lemma_parse_uint(n as nat, 2, rest),
        Val::U32(n) => lemma_parse_uint(n as nat, 4, rest),
        Val::U64(n) => lemma_parse_uint(n as nat, 8, rest),
        Val::I32(n) => lemma_parse_uint(bits32(n), 4, rest),
        Val::I64(n) => lemma_parse_uint(bits64(n), 8, rest),
        Val::Str(c) => {
            let b = encode_utf8(c);
            assert(s =~= le(b.len(), 2) + (b + rest));
            lemma_parse_uint(b.len(), 2, b + rest);
            lemma_parse_blob(b, rest);
            encode_utf8_valid_utf8(c);
            encode_utf8_decode_utf8(c);
        },
        Val::Bytes(b) => {
            assert(s =~= le(b.len(), 4) + (b + rest));
            lemma_parse_uint(b.len(), 4, b + rest);
            lemma_parse_blob(b, rest);
        },
        Val::OptBytes(o) => {
            match o {
                None => lemma_parse_uint(0xffff_ffff, 4, rest),
                Some(b) => {
                    assert(s =~= le(b.len(), 4) + (b + rest));
                    lemma_parse_uint(b.len(), 4, b + rest);
                    lemma_parse_blob(b, rest);
                },
            }
        },
        Val::Acks(n) => lemma_parse_uint(n as nat, 1, rest),
        Val::Error(n) => lemma_parse_uint(n as nat, 2, rest),
        Val::List(rows) => {
            assert(s =~= le(rows.len(), 4) + (encode_rows(rows) + rest));
            lemma_parse_uint(rows.len(), 4, encode_rows(rows) + rest);
            if let Shape::List(row) = shape {
                law_parse_encode_rows(rows, *row, rest);
            }
        },
    }
}

/// Reading the bytes of a row gives the row, and leaves what stands behind.
pub proof fn law_parse_encode(vs: Vals, shapes: Shapes, rest: Seq<u8>)
    requires
        shaped(vs, shapes),
        fits(vs),
    ensures
        parse(shapes, encode(vs) + rest) == Ok::<(Vals, Seq<u8>), Fault>((vs, rest)),
    decreases vs,
{
    match (vs, shapes) {
        (Vals::Then(v, vr), Shapes::Then(s, sr)) => {
            assert(encode(vs) + rest =~= encode_one(v) + (encode(*vr) + rest));
            law_parse_encode_one(v, s, encode(*vr) + rest);
            law_parse_encode(*vr, *sr, rest);
        },
        _ => {
            assert(encode(vs) + rest =~= rest);
        },
    }
}

proof fn lemma_encode_rows_first(rows: Seq<Vals>)
    requires
        rows.len() > 0,
    ensures
        encode_rows(rows) == encode(rows[0]) + encode_rows(rows.skip(1)),
    decreases rows.len(),
{
    if rows.len() == 1 {
        assert(rows.drop_last() =~= Seq::empty());
        assert(rows.skip(1) =~= Seq::empty());
        assert(encode_rows(rows) =~= encode(rows[0]) + encode_rows(rows.skip(1)));
    } else {
        lemma_encode_rows_first(rows.drop_last());
        assert(rows.drop_last().skip(1) =~= rows.skip(1).drop_last());
        assert(rows.skip(1).last() == rows.last());
        assert(encode_rows(rows) =~= encode(rows[0]) + encode_rows(rows.skip(1)));
    }
}

/// Reading the bytes of rows gives the rows, and leaves what stands behind.
pub proof fn law_parse_encode_rows(rows: Seq<Vals>, row: Shapes, rest: Seq<u8>)
    requires
        forall|i: int| 0 <= i < rows.len() ==> shaped(#[trigger] rows[i], row),
        forall|i: int| 0 <= i < rows.len() ==> fits(#[trigger] rows[i]),
    ensures
        parse_rows(row, rows.len(), encode_rows(rows) + rest) == Ok::<(Seq<Vals>, Seq<u8>), Fault>(
            (rows, rest),
        ),
    decreases rows,
{
    if rows.len() == 0 {
        assert(encode_rows(rows) + rest =~= rest);
        assert(rows =~= Seq::empty());
    } else {
        lemma_encode_rows_first(rows);
        let tail = rows.skip(1);
        assert(encode_rows(rows) + rest =~= encode(rows[0]) + (encode_rows(tail) + rest));
        law_parse_encode(rows[0], row, encode_rows(tail) + rest);
        assert forall|i: int| 0 <= i < tail.len() implies shaped(#[trigger] tail[i], row)
            && fits(tail[i]) by {
            assert(tail[i] == rows[i + 1]);
        }
        law_parse_encode_rows(tail, row, rest);
        assert(seq![rows[0]] + tail =~= rows);
    }
}

/// What cutting the input at `k` bytes does to a reading of `s` that gave `v`
/// and left `rest`: before the end of what was read it is truncated, behind it
/// the value is the same.
pub open spec fn cut_result<T>(s: Seq<u8>, v: T, rest: Seq<u8>, k: int) -> Parsed<T> {
    if k < s.len() - rest.len() {
        Err(Fault::Truncated)
    } else {
        Ok((v, rest.take(k - (s.len() - rest.len()))))
    }
}

proof fn lemma_cut_uint(s: Seq<u8>, width: nat, k: int)
    requires
        0 <= k <= s.len(),
        parse_uint(s, width) is Ok,
    ensures
        ({
            let (n, rest) = parse_uint(s, width)->Ok_0;
            &&& rest.len() == s.len() - width
            &&& parse_uint(s.take(k), width) == cut_result(s, n, rest, k)
        }),
{
    if k >= width {
        assert(s.take(k).take(width as int) =~= s.take(width as int));
        assert(s.take(k).skip(width as int) =~= s.skip(width as int).take(k - width));
    }
}

proof fn lemma_cut_blob(s: Seq<u8>, len: nat, k: int)
    requires
        0 <= k <= s.len(),
        parse_blob(s, len) is Ok,
    ensures
        ({
            let (b, rest) = parse_blob(s, len)->Ok_0;
            &&& rest.len() == s.len() - len
            &&& parse_blob(s.take(k), len) == cut_result(s, b, rest, k)
        }),
{
    if k >= len {
        assert(s.take(k).take(len as int) =~= s.take(len as int));
        assert(s.take(k).skip(len as int) =~= s.skip(len as int).take(k - len));
    }
}

/// A reading looks at no byte behind what it reads, and a cut inside what it
/// reads is reported as truncation.
pub proof fn law_cut_one(shape: Shape, s: Seq<u8>, k: int)
    requires
        0 <= k <= s.len(),
        parse_one(shape, s) is Ok,
    ensures
        ({
            let (v, rest) = parse_one(shape, s)->Ok_0;
            &&& rest.len() <= s.len()
            &&& parse_one(shape, s.take(k)) == cut_result(s, v, rest, k)
        }),
    decreases shape, 0int, 0int,
{
    match shape {
        Shape::U8 => lemma_cut_uint(s, 1, k),
        Shape::U16 => lemma_cut_uint(s, 2, k),
        Shape::U32 => lemma_cut_uint(s, 4, k),
        Shape::U64 => lemma_cut_uint(s, 8, k),
        Shape::I32 => lemma_cut_uint(s, 4, k),
        Shape::I64 => lemma_cut_uint(s, 8, k),
        Shape::Str => {
            lemma_cut_uint(s, 2, k);
            let (n, t) = parse_uint(s, 2)->Ok_0;
            if k >= 2 {
                lemma_cut_blob(t, n, k - 2);
            }
        },
        Shape::Bytes => {
            lemma_cut_uint(s, 4, k);
            let (n, t) = parse_uint(s, 4)->Ok_0;
            if k >= 4 {
                lemma_cut_blob(t, n, k - 4);
            }
        },
        Shape::OptBytes => {
            lemma_cut_uint(s, 4, k);
            let (n, t) = parse_uint(s, 4)->Ok_0;
            if k >= 4 && signed32(n) >= 0 {
                lemma_cut_blob(t, n, k - 4);
            }
        },
        Shape::Acks => lemma_cut_uint(s, 1, k),
        Shape::Error => lemma_cut_uint(s, 2, k),
        Shape::List(row) => {
            lemma_cut_uint(s, 4, k);
            let (n, t) = parse_uint(s, 4)->Ok_0;
            law_cut_rows(*row, n, t, t.len() as int);
            if k >= 4 {
                law_cut_rows(*row, n, t, k - 4);
            }
        },
    }
}

/// The same of a row.
pub proof fn law_cut(shapes: Shapes, s: Seq<u8>, k: int)
    requires
        0 <= k <= s.len(),
        parse(shapes, s) is Ok,
    ensures
        ({
            let (v, rest) = parse(shapes, s)->Ok_0;
            &&& rest.len() <= s.len()
            &&& parse(shapes, s.take(k)) == cut_result(s, v, rest, k)
        }),
    decreases shapes, 0int, 0int,
{
    match shapes {
        Shapes::End => {},
        Shapes::Then(first, tail) => {
            law_cut_one(first, s, k);
            let (v, t) = parse_one(first, s)->Ok_0;
            law_cut(*tail, t, t.len() as int);
            if k >= s.len() - t.len() {
                law_cut(*tail, t, k - (s.len() - t.len()));
            }
        },
    }
}

/// The same of rows.
pub proof fn law_cut_rows(row: Shapes, n: nat, s: Seq<u8>, k: int)
    requires
        0 <= k <= s.len(),
        parse_rows(row, n, s) is Ok,
    ensures
        ({
            let (v, rest) = parse_rows(row, n, s)->Ok_0;
            &&& rest.len() <= s.len()
            &&& parse_rows(row, n, s.take(k)) == cut_result(s, v, rest, k)
        }),
    decreases row, 1int, n,
{
    if n > 0 {
        law_cut(row, s, k);
        let (v, t) = parse(row, s)->Ok_0;
        law_cut_rows(row, (n - 1) as nat, t, t.len() as int);
        if k >= s.len() - t.len() {
            law_cut_rows(row, (n - 1) as nat, t, k - (s.len() - t.len()));
        }
    }
}

/// What was read fits its length fields, so what was decoded can be encoded
/// again.
pub proof fn law_parsed_fits_one(shape: Shape, s: Seq<u8>)
    requires
        parse_one(shape, s) is Ok,
    ensures
        fits_one(parse_one(shape, s)->Ok_0.0),
    decreases shape, 0int, 0int,
{
    lemma_pow256_values();
    if s.len() >= 4 {
        lemma_le_value_bound(s.take(4));
    }
    match shape {
        Shape::Str => {
            let n = le_value(s.take(2));
            lemma_le_value_bound(s.take(2));
            decode_utf8_encode_utf8(s.skip(2).take(n as int));
        },
        Shape::List(row) => {
            let (n, t) = parse_uint(s, 4)->Ok_0;
            law_parsed_fits_rows(*row, n, t);
            let v = parse_one(shape, s)->Ok_0.0;
            let rows = parse_rows(*row, n, t)->Ok_0.0;
            assert(v == Val::List(rows));
            assert forall|i: int| 0 <= i < v->List_0.len() implies fits(#[trigger] v->List_0[i]) by {
                assert(v->List_0[i] == rows[i]);
            }
        },
        _ => {},
    }
}

/// The same of a row.
pub proof fn law_parsed_fits(shapes: Shapes, s: Seq<u8>)
    requires
        parse(shapes, s) is Ok,
    ensures
        fits(parse(shapes, s)->Ok_0.0),
    decreases shapes, 0int, 0int,
{
    if let Shapes::Then(first, tail) = shapes {
        law_parsed_fits_one(first, s);
        let (v, t) = parse_one(first, s)->Ok_0;
        law_parsed_fits(*tail, t);
    }
}

/// The same of rows.
pub proof fn law_parsed_fits_rows(row: Shapes, n: nat, s: Seq<u8>)
    requires
        parse_rows(row, n, s) is Ok,
    ensures
        parse_rows(row, n, s)->Ok_0.0.len() == n,
        forall|i: int|
            0 <= i < n ==> fits(#[trigger] parse_rows(row, n, s)->Ok_0.0[i]),
    decreases row, 1int, n,
{
    if n > 0 {
        law_parsed_fits(row, s);
        let (v, t) = parse(row, s)->Ok_0;
        law_parsed_fits_rows(row, (n - 1) as nat, t);
        let all = parse_rows(row, n, s)->Ok_0.0;
        let rest = parse_rows(row, (n - 1) as nat, t)->Ok_0.0;
        assert forall|i: int| 0 <= i < n implies fits(#[trigger] all[i]) by {
            if i > 0 {
                assert(all[i] == rest[i - 1]);
            }
        }
    }
}

/// Where all lengths fit, those of texts do.
pub proof fn lemma_fits_texts_one(v: Val)
    requires
        fits_one(v),
    ensures
        texts_fit_one(v),
    decreases v,
{
    if let Val::List(rows) = v {
        assert forall|i: int| 0 <= i < v->List_0.len() implies texts_fit(#[trigger] v->List_0[i]) by {
            assert(fits(v->List_0[i]));
            lemma_fits_texts(v->List_0[i]);
        }
    }
}

pub proof fn lemma_fits_texts(vs: Vals)
    requires
        fits(vs),
    ensures
        texts_fit(vs),
    decreases vs,
{
    if let Vals::Then(v, rest) = vs {
        lemma_fits_texts_one(v);
        lemma_fits_texts(*rest);
    }
}

/// A row of a list that fits does.
pub proof fn lemma_fits_row(v: Val, i: int)
    requires
        v is List,
        fits_one(v),
        0 <= i < v->List_0.len(),
    ensures
        v->List_0.len() <= 0xffff_ffff,
        fits(v->List_0[i]),
{
}

} // verus!
