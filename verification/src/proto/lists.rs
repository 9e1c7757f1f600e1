//! Lists on the wire: a count and as many rows.

use super::schema::{
    append, encode, encode_one, encode_rows, lemma_append, lemma_texts_fit_row, parse, parse_rows,
    parse_uint, shaped, shaped_one, texts_fit, texts_fit_one, Fault, Parsed, Shape, Shapes, Val,
    Vals,
};
use super::wire::{put_str, put_u32, reads, Reader};
use super::{field, reads_row, value, Result};
use crate::codec::put_le;
use vstd::prelude::*;

verus! {

/// A reading of rows with the rows read before it in front.
pub open spec fn behind(done: Seq<Vals>, r: Parsed<Seq<Vals>>) -> Parsed<Seq<Vals>> {
    match r {
        Ok((rows, s)) => Ok((done + rows, s)),
        Err(e) => Err(e),
    }
}

/// Reading one row more.
pub proof fn lemma_next_row(done: Seq<Vals>, row: Shapes, n: nat, s: Seq<u8>)
    requires
        n > 0,
    ensures
        match parse(row, s) {
            Ok((v, t)) => behind(done, parse_rows(row, n, s)) == behind(
                done.push(v),
                parse_rows(row, (n - 1) as nat, t),
            ),
            Err(e) => behind(done, parse_rows(row, n, s)) == Err::<(Seq<Vals>, Seq<u8>), Fault>(e),
        },
{
    if let Ok((v, t)) = parse(row, s) {
        if let Ok((vs, u)) = parse_rows(row, (n - 1) as nat, t) {
            assert(done + (seq![v] + vs) =~= done.push(v) + vs);
        }
    }
}

/// Nothing read yet, and nothing left to read.
pub proof fn lemma_rows_ends(row: Shapes, n: nat, s: Seq<u8>, done: Seq<Vals>, t: Seq<u8>)
    ensures
        behind(Seq::empty(), parse_rows(row, n, s)) == parse_rows(row, n, s),
        behind(done, parse_rows(row, 0, t)) == Ok::<(Seq<Vals>, Seq<u8>), Fault>((done, t)),
{
    if let Ok((rows, u)) = parse_rows(row, n, s) {
        assert(Seq::empty() + rows =~= rows);
    }
    assert(done + Seq::empty() =~= done);
}

/// Writing one row more.
pub proof fn lemma_encode_next(rows: Seq<Vals>, i: int)
    requires
        0 <= i < rows.len(),
    ensures
        encode_rows(rows.take(i + 1)) == encode_rows(rows.take(i)) + encode(rows[i]),
{
    assert(rows.take(i + 1).drop_last() =~= rows.take(i));
}

pub open spec fn id_row() -> Shapes {
    field(Shape::U32, Shapes::End)
}

pub open spec fn id_vals(x: u32) -> Vals {
    value(Val::U32(x), Vals::End)
}

/// A list of broker ids.
pub open spec fn id_list(v: Seq<u32>) -> Val {
    Val::List(v.map_values(|x: u32| id_vals(x)))
}

pub proof fn lemma_id_shaped(v: Seq<u32>)
    ensures
        shaped_one(id_list(v), Shape::List(Box::new(id_row()))),
{
    let rows = id_list(v)->List_0;
    assert forall|i: int| 0 <= i < rows.len() implies shaped(#[trigger] rows[i], id_row()) by {
        reveal_with_fuel(shaped, 2);
    }
}

fn put_id(out: &mut Vec<u8>, x: &u32)
    ensures
        final(out)@ == append(old(out)@, id_vals(*x)),
{
    put_u32(out, *x);
    proof {
        reveal_with_fuel(append, 2);
    }
}

pub fn put_id_list(out: &mut Vec<u8>, list: &Vec<u32>)
    ensures
        final(out)@ == old(out)@ + encode_one(id_list(list@)),
{
    let ghost start = out@;
    let ghost rows = id_list(list@)->List_0;
    put_le(out, list.len() as u64, 4);
    let ghost head = out@;
    let mut i: usize = 0;
    assert(out@ =~= head + encode_rows(rows.take(0)));
    while i < list.len()
        invariant
            i <= list@.len(),
            id_list(list@) == Val::List(rows),
            out@ == head + encode_rows(rows.take(i as int)),
        decreases list@.len() - i,
    {
        let ghost before = out@;
        put_id(out, &list[i]);
        proof {
            lemma_encode_next(rows, i as int);
            lemma_append(before, id_vals(list@[i as int]));
            assert(out@ =~= head + encode_rows(rows.take(i + 1)));
        }
        i = i + 1;
    }
    assert(rows.take(i as int) =~= rows);
    assert(out@ =~= start + encode_one(id_list(list@)));
}

fn read_id(r: &mut Reader<'_>) -> (res: Result<u32>)
    ensures
        reads_row(id_row(), old(r)@, final(r)@, res, |x: u32| id_vals(x)),
{
    proof {
        reveal_with_fuel(parse, 2);
    }
    let x: u32 = r.u32()?;
    Ok(x)
}

pub fn read_id_list(r: &mut Reader<'_>) -> (res: Result<Vec<u32>>)
    ensures
        reads(
            Shape::List(Box::new(id_row())),
            old(r)@,
            final(r)@,
            res,
            |x: Vec<u32>| id_list(x@),
        ),
{
    let count: u32 = r.u32()?;
    let ghost body = r@;
    let mut list: Vec<u32> = Vec::new();
    let mut i: u32 = 0;
    let ghost mut done: Seq<Vals> = Seq::empty();
    proof {
        lemma_rows_ends(id_row(), count as nat, body, done, body);
        assert(done =~= list@.map_values(|x: u32| id_vals(x)));
    }
    while i < count
        invariant
            i <= count,
            done == list@.map_values(|x: u32| id_vals(x)),
            parse_uint(old(r)@, 4) == Ok::<(nat, Seq<u8>), Fault>((count as nat, body)),
            parse_rows(id_row(), count as nat, body) == behind(
                done,
                parse_rows(id_row(), (count - i) as nat, r@),
            ),
        decreases count - i,
    {
        proof {
            lemma_next_row(done, id_row(), (count - i) as nat, r@);
        }
        let x: u32 = read_id(r)?;
        proof {
            done = done.push(id_vals(x));
        }
        list.push(x);
        assert(done =~= list@.map_values(|x: u32| id_vals(x)));
        i = i + 1;
    }
    proof {
        lemma_rows_ends(id_row(), 0, body, done, r@);
    }
    Ok(list)
}

pub open spec fn name_row() -> Shapes {
    field(Shape::Str, Shapes::End)
}

pub open spec fn name_vals(x: String) -> Vals {
    value(Val::Str(x@), Vals::End)
}

/// A list of names.
pub open spec fn name_list(v: Seq<String>) -> Val {
    Val::List(v.map_values(|x: String| name_vals(x)))
}

pub proof fn lemma_name_shaped(v: Seq<String>)
    ensures
        shaped_one(name_list(v), Shape::List(Box::new(name_row()))),
{
    let rows = name_list(v)->List_0;
    assert forall|i: int| 0 <= i < rows.len() implies shaped(#[trigger] rows[i], name_row()) by {
        reveal_with_fuel(shaped, 2);
    }
}

fn put_name(out: &mut Vec<u8>, x: &String)
    requires
        texts_fit(name_vals(*x)),
    ensures
        final(out)@ == append(old(out)@, name_vals(*x)),
{
    proof {
        reveal_with_fuel(texts_fit, 2);
    }
    put_str(out, x.as_str());
    proof {
        reveal_with_fuel(append, 2);
    }
}

pub fn put_name_list(out: &mut Vec<u8>, list: &Vec<String>)
    requires
        texts_fit_one(name_list(list@)),
    ensures
        final(out)@ == old(out)@ + encode_one(name_list(list@)),
{
    let ghost start = out@;
    let ghost rows = name_list(list@)->List_0;
    put_le(out, list.len() as u64, 4);
    let ghost head = out@;
    let mut i: usize = 0;
    assert(out@ =~= head + encode_rows(rows.take(0)));
    while i < list.len()
        invariant
            i <= list@.len(),
            texts_fit_one(name_list(list@)),
            name_list(list@) == Val::List(rows),
            out@ == head + encode_rows(rows.take(i as int)),
        decreases list@.len() - i,
    {
        let ghost before = out@;
        proof {
            lemma_texts_fit_row(name_list(list@), i as int);
        }
        put_name(out, &list[i]);
        proof {
            lemma_encode_next(rows, i as int);
            lemma_append(before, name_vals(list@[i as int]));
            assert(out@ =~= head + encode_rows(rows.take(i + 1)));
        }
        i = i + 1;
    }
    assert(rows.take(i as int) =~= rows);
    assert(out@ =~= start + encode_one(name_list(list@)));
}

fn read_name(r: &mut Reader<'_>) -> (res: Result<String>)
    ensures
        reads_row(name_row(), old(r)@, final(r)@, res, |x: String| name_vals(x)),
{
    proof {
        reveal_with_fuel(parse, 2);
    }
    let x: String = r.string()?;
    Ok(x)
}

pub fn read_name_list(r: &mut Reader<'_>) -> (res: Result<Vec<String>>)
    ensures
        reads(
            Shape::List(Box::new(name_row())),
            old(r)@,
            final(r)@,
            res,
            |x: Vec<String>| name_list(x@),
        ),
{
    let count: u32 = r.u32()?;
    let ghost body = r@;
    let mut list: Vec<String> = Vec::new();
    let mut i: u32 = 0;
    let ghost mut done: Seq<Vals> = Seq::empty();
    proof {
        lemma_rows_ends(name_row(), count as nat, body, done, body);
        assert(done =~= list@.map_values(|x: String| name_vals(x)));
    }
    while i < count
        invariant
            i <= count,
            done == list@.map_values(|x: String| name_vals(x)),
            parse_uint(old(r)@, 4) == Ok::<(nat, Seq<u8>), Fault>((count as nat, body)),
            parse_rows(name_row(), count as nat, body) == behind(
                done,
                parse_rows(name_row(), (count - i) as nat, r@),
            ),
        decreases count - i,
    {
        proof {
            lemma_next_row(done, name_row(), (count - i) as nat, r@);
        }
        let x: String = read_name(r)?;
        proof {
            done = done.push(name_vals(x));
        }
        list.push(x);
        assert(done =~= list@.map_values(|x: String| name_vals(x)));
        i = i + 1;
    }
    proof {
        lemma_rows_ends(name_row(), 0, body, done, r@);
    }
    Ok(list)
}

pub open spec fn addr_row() -> Shapes {
    field(Shape::U32, field(Shape::Str, Shapes::End))
}

pub open spec fn addr_vals(x: (u32, String)) -> Vals {
    value(Val::U32(x.0), value(Val::Str(x.1@), Vals::End))
}

/// A list of broker ids with addresses.
pub open spec fn addr_list(v: Seq<(u32, String)>) -> Val {
    Val::List(v.map_values(|x: (u32, String)| addr_vals(x)))
}

pub proof fn lemma_addr_shaped(v: Seq<(u32, String)>)
    ensures
        shaped_one(addr_list(v), Shape::List(Box::new(addr_row()))),
{
    let rows = addr_list(v)->List_0;
    assert forall|i: int| 0 <= i < rows.len() implies shaped(#[trigger] rows[i], addr_row()) by {
        reveal_with_fuel(shaped, 3);
    }
}

fn put_addr(out: &mut Vec<u8>, x: &(u32, String))
    requires
        texts_fit(addr_vals(*x)),
    ensures
        final(out)@ == append(old(out)@, addr_vals(*x)),
{
    proof {
        reveal_with_fuel(texts_fit, 3);
    }
    put_u32(out, x.0);
    put_str(out, x.1.as_str());
    proof {
        reveal_with_fuel(append, 3);
    }
}

pub fn put_addr_list(out: &mut Vec<u8>, list: &Vec<(u32, String)>)
    requires
        texts_fit_one(addr_list(list@)),
    ensures
        final(out)@ == old(out)@ + encode_one(addr_list(list@)),
{
    let ghost start = out@;
    let ghost rows = addr_list(list@)->List_0;
    put_le(out, list.len() as u64, 4);
    let ghost head = out@;
    let mut i: usize = 0;
    assert(out@ =~= head + encode_rows(rows.take(0)));
    while i < list.len()
        invariant
            i <= list@.len(),
            texts_fit_one(addr_list(list@)),
            addr_list(list@) == Val::List(rows),
            out@ == head + encode_rows(rows.take(i as int)),
        decreases list@.len() - i,
    {
        let ghost before = out@;
        proof {
            lemma_texts_fit_row(addr_list(list@), i as int);
        }
        put_addr(out, &list[i]);
        proof {
            lemma_encode_next(rows, i as int);
            lemma_append(before, addr_vals(list@[i as int]));
            assert(out@ =~= head + encode_rows(rows.take(i + 1)));
        }
        i = i + 1;
    }
    assert(rows.take(i as int) =~= rows);
    assert(out@ =~= start + encode_one(addr_list(list@)));
}

fn read_addr(r: &mut Reader<'_>) -> (res: Result<(u32, String)>)
    ensures
        reads_row(addr_row(), old(r)@, final(r)@, res, |x: (u32, String)| addr_vals(x)),
{
    proof {
        reveal_with_fuel(parse, 3);
    }
    let id: u32 = r.u32()?;
    let addr: String = r.string()?;
    Ok((id, addr))
}

pub fn read_addr_list(r: &mut Reader<'_>) -> (res: Result<Vec<(u32, String)>>)
    ensures
        reads(
            Shape::List(Box::new(addr_row())),
            old(r)@,
            final(r)@,
            res,
            |x: Vec<(u32, String)>| addr_list(x@),
        ),
{
    let count: u32 = r.u32()?;
    let ghost body = r@;
    let mut list: Vec<(u32, String)> = Vec::new();
    let mut i: u32 = 0;
    let ghost mut done: Seq<Vals> = Seq::empty();
    proof {
        lemma_rows_ends(addr_row(), count as nat, body, done, body);
        assert(done =~= list@.map_values(|x: (u32, String)| addr_vals(x)));
    }
    while i < count
        invariant
            i <= count,
            done == list@.map_values(|x: (u32, String)| addr_vals(x)),
            parse_uint(old(r)@, 4) == Ok::<(nat, Seq<u8>), Fault>((count as nat, body)),
            parse_rows(addr_row(), count as nat, body) == behind(
                done,
                parse_rows(addr_row(), (count - i) as nat, r@),
            ),
        decreases count - i,
    {
        proof {
            lemma_next_row(done, addr_row(), (count - i) as nat, r@);
        }
        let x: (u32, String) = read_addr(r)?;
        proof {
            done = done.push(addr_vals(x));
        }
        list.push(x);
        assert(done =~= list@.map_values(|x: (u32, String)| addr_vals(x)));
        i = i + 1;
    }
    proof {
        lemma_rows_ends(addr_row(), 0, body, done, r@);
    }
    Ok(list)
}

pub open spec fn slot_row() -> Shapes {
    field(Shape::Str, field(Shape::U32, Shapes::End))
}

pub open spec fn slot_vals(x: (String, u32)) -> Vals {
    value(Val::Str(x.0@), value(Val::U32(x.1), Vals::End))
}

/// A list of partitions, each a topic and a number.
pub open spec fn slot_list(v: Seq<(String, u32)>) -> Val {
    Val::List(v.map_values(|x: (String, u32)| slot_vals(x)))
}

pub proof fn lemma_slot_shaped(v: Seq<(String, u32)>)
    ensures
        shaped_one(slot_list(v), Shape::List(Box::new(slot_row()))),
{
    let rows = slot_list(v)->List_0;
    assert forall|i: int| 0 <= i < rows.len() implies shaped(#[trigger] rows[i], slot_row()) by {
        reveal_with_fuel(shaped, 3);
    }
}

fn put_slot(out: &mut Vec<u8>, x: &(String, u32))
    requires
        texts_fit(slot_vals(*x)),
    ensures
        final(out)@ == append(old(out)@, slot_vals(*x)),
{
    proof {
        reveal_with_fuel(texts_fit, 3);
    }
    put_str(out, x.0.as_str());
    put_u32(out, x.1);
    proof {
        reveal_with_fuel(append, 3);
    }
}

pub fn put_slot_list(out: &mut Vec<u8>, list: &Vec<(String, u32)>)
    requires
        texts_fit_one(slot_list(list@)),
    ensures
        final(out)@ == old(out)@ + encode_one(slot_list(list@)),
{
    let ghost start = out@;
    let ghost rows = slot_list(list@)->List_0;
    put_le(out, list.len() as u64, 4);
    let ghost head = out@;
    let mut i: usize = 0;
    assert(out@ =~= head + encode_rows(rows.take(0)));
    while i < list.len()
        invariant
            i <= list@.len(),
            texts_fit_one(slot_list(list@)),
            slot_list(list@) == Val::List(rows),
            out@ == head + encode_rows(rows.take(i as int)),
        decreases list@.len() - i,
    {
        let ghost before = out@;
        proof {
            lemma_texts_fit_row(slot_list(list@), i as int);
        }
        put_slot(out, &list[i]);
        proof {
            lemma_encode_next(rows, i as int);
            lemma_append(before, slot_vals(list@[i as int]));
            assert(out@ =~= head + encode_rows(rows.take(i + 1)));
        }
        i = i + 1;
    }
    assert(rows.take(i as int) =~= rows);
    assert(out@ =~= start + encode_one(slot_list(list@)));
}

fn read_slot(r: &mut Reader<'_>) -> (res: Result<(String, u32)>)
    ensures
        reads_row(slot_row(), old(r)@, final(r)@, res, |x: (String, u32)| slot_vals(x)),
{
    proof {
        reveal_with_fuel(parse, 3);
    }
    let topic: String = r.string()?;
    let partition: u32 = r.u32()?;
    Ok((topic, partition))
}

pub fn read_slot_list(r: &mut Reader<'_>) -> (res: Result<Vec<(String, u32)>>)
    ensures
        reads(
            Shape::List(Box::new(slot_row())),
            old(r)@,
            final(r)@,
            res,
            |x: Vec<(String, u32)>| slot_list(x@),
        ),
{
    let count: u32 = r.u32()?;
    let ghost body = r@;
    let mut list: Vec<(String, u32)> = Vec::new();
    let mut i: u32 = 0;
    let ghost mut done: Seq<Vals> = Seq::empty();
    proof {
        lemma_rows_ends(slot_row(), count as nat, body, done, body);
        assert(done =~= list@.map_values(|x: (String, u32)| slot_vals(x)));
    }
    while i < count
        invariant
            i <= count,
            done == list@.map_values(|x: (String, u32)| slot_vals(x)),
            parse_uint(old(r)@, 4) == Ok::<(nat, Seq<u8>), Fault>((count as nat, body)),
            parse_rows(slot_row(), count as nat, body) == behind(
                done,
                parse_rows(slot_row(), (count - i) as nat, r@),
            ),
        decreases count - i,
    {
        proof {
            lemma_next_row(done, slot_row(), (count - i) as nat, r@);
        }
        let x: (String, u32) = read_slot(r)?;
        proof {
            done = done.push(slot_vals(x));
        }
        list.push(x);
        assert(done =~= list@.map_values(|x: (String, u32)| slot_vals(x)));
        i = i + 1;
    }
    proof {
        lemma_rows_ends(slot_row(), 0, body, done, r@);
    }
    Ok(list)
}

} // verus!
