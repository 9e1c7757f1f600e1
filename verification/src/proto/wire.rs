//! Little-endian wire primitives. Strings are u16-length-prefixed UTF-8;
//! byte blobs are u32-length-prefixed; optional blobs use i32 with -1 = null
//! (the same null convention as the on-disk record format).

use super::schema::{
    encode_one, parse_blob, parse_one, parse_uint, trailing_bytes, Fault, Shape, Val,
};
use super::{opt_view, ProtoError, Result};
use crate::codec::{
    from_bits32, from_bits64, get_le, le_value, lemma_le_value_bound, lemma_pow256_values, pow256,
    put_le, to_bits32, to_bits64,
};
use crate::text::push_decimal;
use vstd::prelude::*;
use vstd::slice::*;
use vstd::string::*;
use vstd::utf8::*;

verus! {

/// `String::from_utf8`: text for bytes that are valid UTF-8, with the
/// characters that they encode, and nothing for other bytes.
#[verifier::external_body]
fn text_from_utf8(bytes: Vec<u8>) -> (r: Option<String>)
    ensures
        r is Some <==> valid_utf8(bytes@),
        r matches Some(s) ==> s@ == decode_utf8(bytes@),
{
    String::from_utf8(bytes).ok()
}

pub fn put_u8(out: &mut Vec<u8>, v: u8)
    ensures
        final(out)@ == old(out)@ + encode_one(Val::U8(v)),
{
    put_le(out, v as u64, 1);
}

pub fn put_u16(out: &mut Vec<u8>, v: u16)
    ensures
        final(out)@ == old(out)@ + encode_one(Val::U16(v)),
{
    put_le(out, v as u64, 2);
}

pub fn put_u32(out: &mut Vec<u8>, v: u32)
    ensures
        final(out)@ == old(out)@ + encode_one(Val::U32(v)),
{
    put_le(out, v as u64, 4);
}

pub fn put_u64(out: &mut Vec<u8>, v: u64)
    ensures
        final(out)@ == old(out)@ + encode_one(Val::U64(v)),
{
    put_le(out, v, 8);
}

pub fn put_i32(out: &mut Vec<u8>, v: i32)
    ensures
        final(out)@ == old(out)@ + encode_one(Val::I32(v)),
{
    put_le(out, to_bits32(v) as u64, 4);
}

pub fn put_i64(out: &mut Vec<u8>, v: i64)
    ensures
        final(out)@ == old(out)@ + encode_one(Val::I64(v)),
{
    put_le(out, to_bits64(v), 8);
}

/// The string is at most 65535 bytes long.
pub fn put_str(out: &mut Vec<u8>, s: &str)
    requires
        encode_utf8(s@).len() <= 0xffff,
    ensures
        final(out)@ == old(out)@ + encode_one(Val::Str(s@)),
{
    let ghost start = out@;
    let bytes: &[u8] = s.as_bytes();
    put_le(out, bytes.len() as u64, 2);
    out.extend_from_slice(bytes);
    assert(out@ =~= start + encode_one(Val::Str(s@)));
}

/// The length field holds the low 32 bits of a length that does not fit it.
pub fn put_bytes(out: &mut Vec<u8>, b: &[u8])
    ensures
        final(out)@ == old(out)@ + encode_one(Val::Bytes(b@)),
{
    let ghost start = out@;
    put_le(out, b.len() as u64, 4);
    out.extend_from_slice(b);
    assert(out@ =~= start + encode_one(Val::Bytes(b@)));
}

/// The value of an optional blob.
pub open spec fn opt_val(b: Option<&[u8]>) -> Val {
    match b {
        None => Val::OptBytes(None),
        Some(b) => Val::OptBytes(Some(b@)),
    }
}

/// The length field holds the low 32 bits of a length that does not fit it.
pub fn put_opt_bytes(out: &mut Vec<u8>, b: Option<&[u8]>)
    ensures
        final(out)@ == old(out)@ + encode_one(opt_val(b)),
{
    match b {
        None => {
            put_le(out, 0xffff_ffff, 4);
        },
        Some(b) => {
            put_bytes(out, b);
        },
    }
}

/// The same for an owned blob.
pub fn put_key(out: &mut Vec<u8>, key: &Option<Vec<u8>>)
    ensures
        final(out)@ == old(out)@ + encode_one(Val::OptBytes(opt_view(*key))),
{
    match key {
        None => put_opt_bytes(out, None),
        Some(b) => put_opt_bytes(out, Some(b.as_slice())),
    }
}

/// What reading a field of one shape from `before` gives: the value and the
/// bytes behind it, or the fault.
pub open spec fn reads<T>(
    shape: Shape,
    before: Seq<u8>,
    after: Seq<u8>,
    r: Result<T>,
    val: spec_fn(T) -> Val,
) -> bool {
    match parse_one(shape, before) {
        Ok((v, rest)) => r is Ok && val(r->Ok_0) == v && after == rest,
        Err(e) => r is Err && r->Err_0@ == e,
    }
}

/// A cursor over the bytes that are still to be read.
pub struct Reader<'a> {
    rest: &'a [u8],
}

impl<'a> View for Reader<'a> {
    type V = Seq<u8>;

    closed spec fn view(&self) -> Seq<u8> {
        self.rest@
    }
}

impl<'a> Reader<'a> {
    pub fn new(buf: &'a [u8]) -> (r: Self)
        ensures
            r@ == buf@,
    {
        Self { rest: buf }
    }

    fn take(&mut self, n: usize) -> (r: Result<&'a [u8]>)
        ensures
            match parse_blob(old(self)@, n as nat) {
                Ok((b, rest)) => r is Ok && r->Ok_0@ == b && final(self)@ == rest,
                Err(e) => r is Err && r->Err_0@ == e && final(self)@ == old(self)@,
            },
    {
        if self.rest.len() < n {
            return Err(ProtoError::Truncated);
        }
        let s: &'a [u8] = slice_subrange(self.rest, 0, n);
        self.rest = slice_subrange(self.rest, n, self.rest.len());
        Ok(s)
    }

    fn uint(&mut self, width: usize) -> (r: Result<u64>)
        requires
            width <= 8,
        ensures
            match parse_blob(old(self)@, width as nat) {
                Ok((b, rest)) => r is Ok && r->Ok_0 == le_value(b) && le_value(b) < pow256(
                    width as nat,
                ) && final(self)@ == rest,
                Err(e) => r is Err && r->Err_0@ == e && final(self)@ == old(self)@,
            },
    {
        let s: &'a [u8] = self.take(width)?;
        proof {
            lemma_le_value_bound(s@);
        }
        Ok(get_le(s))
    }

    pub fn u8(&mut self) -> (r: Result<u8>)
        ensures
            reads(Shape::U8, old(self)@, final(self)@, r, |x: u8| Val::U8(x)),
            r is Ok ==> parse_uint(old(self)@, 1) == Ok::<(nat, Seq<u8>), Fault>(
                (r->Ok_0 as nat, final(self)@),
            ),
            r is Err ==> final(self)@ == old(self)@,
    {
        proof {
            lemma_pow256_values();
        }
        Ok(self.uint(1)? as u8)
    }

    pub fn u16(&mut self) -> (r: Result<u16>)
        ensures
            reads(Shape::U16, old(self)@, final(self)@, r, |x: u16| Val::U16(x)),
            r is Ok ==> parse_uint(old(self)@, 2) == Ok::<(nat, Seq<u8>), Fault>(
                (r->Ok_0 as nat, final(self)@),
            ),
            r is Err ==> final(self)@ == old(self)@,
    {
        proof {
            lemma_pow256_values();
        }
        Ok(self.uint(2)? as u16)
    }

    pub fn u32(&mut self) -> (r: Result<u32>)
        ensures
            reads(Shape::U32, old(self)@, final(self)@, r, |x: u32| Val::U32(x)),
            r is Ok ==> parse_uint(old(self)@, 4) == Ok::<(nat, Seq<u8>), Fault>(
                (r->Ok_0 as nat, final(self)@),
            ),
            r is Err ==> final(self)@ == old(self)@,
    {
        proof {
            lemma_pow256_values();
        }
        Ok(self.uint(4)? as u32)
    }

    pub fn u64(&mut self) -> (r: Result<u64>)
        ensures
            reads(Shape::U64, old(self)@, final(self)@, r, |x: u64| Val::U64(x)),
            r is Ok ==> parse_uint(old(self)@, 8) == Ok::<(nat, Seq<u8>), Fault>(
                (r->Ok_0 as nat, final(self)@),
            ),
            r is Err ==> final(self)@ == old(self)@,
    {
        self.uint(8)
    }

    pub fn i32(&mut self) -> (r: Result<i32>)
        ensures
            reads(Shape::I32, old(self)@, final(self)@, r, |x: i32| Val::I32(x)),
            r is Err ==> final(self)@ == old(self)@,
    {
        proof {
            lemma_pow256_values();
        }
        Ok(from_bits32(self.uint(4)? as u32))
    }

    pub fn i64(&mut self) -> (r: Result<i64>)
        ensures
            reads(Shape::I64, old(self)@, final(self)@, r, |x: i64| Val::I64(x)),
            r is Err ==> final(self)@ == old(self)@,
    {
        Ok(from_bits64(self.uint(8)?))
    }

    pub fn string(&mut self) -> (r: Result<String>)
        ensures
            reads(Shape::Str, old(self)@, final(self)@, r, |x: String| Val::Str(x@)),
    {
        proof {
            lemma_pow256_values();
        }
        let len: usize = self.uint(2)? as usize;
        let bytes: &'a [u8] = self.take(len)?;
        match text_from_utf8(slice_to_vec(bytes)) {
            Some(s) => Ok(s),
            None => Err(ProtoError::Malformed("invalid utf-8 in string".to_owned())),
        }
    }

    pub fn bytes(&mut self) -> (r: Result<Vec<u8>>)
        ensures
            reads(Shape::Bytes, old(self)@, final(self)@, r, |x: Vec<u8>| Val::Bytes(x@)),
    {
        proof {
            lemma_pow256_values();
        }
        let len: usize = self.uint(4)? as usize;
        Ok(slice_to_vec(self.take(len)?))
    }

    pub fn opt_bytes(&mut self) -> (r: Result<Option<Vec<u8>>>)
        ensures
            reads(
                Shape::OptBytes,
                old(self)@,
                final(self)@,
                r,
                |x: Option<Vec<u8>>| Val::OptBytes(
                    match x {
                        Some(b) => Some(b@),
                        None => None,
                    },
                ),
            ),
    {
        proof {
            lemma_pow256_values();
        }
        let len: i32 = from_bits32(self.uint(4)? as u32);
        if len < 0 {
            return Ok(None);
        }
        Ok(Some(slice_to_vec(self.take(len as usize)?)))
    }

    pub fn expect_end(&self) -> (r: Result<()>)
        ensures
            r is Ok <==> self@.len() == 0,
            r is Err ==> r->Err_0@ == Fault::Malformed(trailing_bytes(self@.len())),
    {
        if self.rest.len() != 0 {
            let mut text: String = String::new();
            push_decimal(&mut text, self.rest.len() as u64);
            text.append(" trailing bytes after message body");
            assert(text@ =~= trailing_bytes(self@.len()));
            return Err(ProtoError::Malformed(text));
        }
        Ok(())
    }
}

} // verus!
