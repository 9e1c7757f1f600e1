//! Consumer offsets stored in an internal `__offsets` log — the log dogfooding
//! itself as its own metadata store, as Kafka does with `__consumer_offsets`.
//!
//! A commit is an append of (group, topic, partition) → offset; the latest
//! record for a key wins. At startup the whole log is replayed into an
//! in-memory map. No compaction yet, so the log only grows.

use crate::codec::{get_le, law_le_roundtrip, le, le_value, lemma_pow256_values};
use crate::proto::schema::{
    encode, fits, law_parse_encode, parse, parse_str, parse_uint, shaped, Shape, Shapes, Val, Vals,
};
use crate::proto::wire::{put_str, put_u32, put_u64, Reader};
use crate::proto::{field, value};
use crate::storage::record::{Record, RecordView};
use vstd::prelude::*;
use vstd::utf8::*;

verus! {

pub const OFFSETS_TOPIC: &'static str = "__offsets";

/// Whose offset: the group's, in a partition of a topic.
pub type Place = (Seq<char>, Seq<char>, u32);

/// The fields of a key.
pub open spec fn key_vals(k: Place) -> Vals {
    value(Val::Str(k.0), value(Val::Str(k.1), value(Val::U32(k.2), Vals::End)))
}

pub open spec fn key_shape() -> Shapes {
    field(Shape::Str, field(Shape::Str, field(Shape::U32, Shapes::End)))
}

/// What a record's key and value say, if they are those of a commit.
pub open spec fn entry(key: Seq<u8>, val: Seq<u8>) -> Option<(Place, u64)> {
    match parse_str(key) {
        Ok((group, a)) => match parse_str(a) {
            Ok((topic, b)) => match parse_uint(b, 4) {
                Ok((p, rest)) => if rest.len() == 0 && val.len() == 8 {
                    Some(((group, topic, p as u32), le_value(val) as u64))
                } else {
                    None
                },
                Err(_) => None,
            },
            Err(_) => None,
        },
        Err(_) => None,
    }
}

/// The offsets after one more record of the log. A record that is no commit
/// changes nothing.
pub open spec fn noted(m: Map<Place, u64>, r: RecordView) -> Map<Place, u64> {
    match r.key {
        Some(k) => match entry(k, r.value) {
            Some((place, offset)) => m.insert(place, offset),
            None => m,
        },
        None => m,
    }
}

/// The offsets after these records of the log.
pub open spec fn replayed(m: Map<Place, u64>, rs: Seq<RecordView>) -> Map<Place, u64>
    decreases rs.len(),
{
    if rs.len() == 0 {
        m
    } else {
        noted(replayed(m, rs.drop_last()), rs.last())
    }
}

pub open spec fn record_views(v: Seq<Record>) -> Seq<RecordView> {
    v.map_values(|r: Record| r@)
}

/// A commit is read back as it was written.
pub proof fn law_entry_roundtrip(k: Place, offset: u64)
    requires
        encode_utf8(k.0).len() <= 0xffff,
        encode_utf8(k.1).len() <= 0xffff,
    ensures
        entry(encode(key_vals(k)), le(offset as nat, 8)) == Some((k, offset)),
{
    lemma_pow256_values();
    law_le_roundtrip(offset as nat, 8);
    let vals = key_vals(k);
    let bytes = encode(vals);
    reveal_with_fuel(shaped, 4);
    reveal_with_fuel(fits, 4);
    law_parse_encode(vals, key_shape(), Seq::empty());
    assert(bytes + Seq::<u8>::empty() =~= bytes);
    reveal_with_fuel(parse, 4);
}

/// Replaying the log gives for each key the offset of its last commit: a commit
/// appended to the log shows, and no other key changes.
pub proof fn law_last_commit_wins(m: Map<Place, u64>, rs: Seq<RecordView>, r: RecordView, k: Place, offset: u64)
    requires
        encode_utf8(k.0).len() <= 0xffff,
        encode_utf8(k.1).len() <= 0xffff,
        r.key == Some(encode(key_vals(k))),
        r.value == le(offset as nat, 8),
    ensures
        replayed(m, rs.push(r)) == replayed(m, rs).insert(k, offset),
{
    law_entry_roundtrip(k, offset);
    assert(rs.push(r).drop_last() =~= rs);
}

/// The bytes of a key.
pub fn encode_key(group: &str, topic: &str, partition: u32) -> (key: Vec<u8>)
    requires
        encode_utf8(group@).len() <= 0xffff,
        encode_utf8(topic@).len() <= 0xffff,
    ensures
        key@ == encode(key_vals((group@, topic@, partition))),
{
    let mut key: Vec<u8> = Vec::new();
    put_str(&mut key, group);
    put_str(&mut key, topic);
    put_u32(&mut key, partition);
    proof {
        reveal_with_fuel(encode, 4);
        assert(key@ =~= encode(key_vals((group@, topic@, partition))));
    }
    key
}

/// The bytes of a committed offset.
pub fn encode_offset(offset: u64) -> (r: Vec<u8>)
    ensures
        r@ == le(offset as nat, 8),
{
    let mut r: Vec<u8> = Vec::new();
    put_u64(&mut r, offset);
    assert(r@ =~= le(offset as nat, 8));
    r
}

/// Reads a commit.
pub fn decode_entry(key: &[u8], val: &[u8]) -> (r: Option<((String, String, u32), u64)>)
    ensures
        match entry(key@, val@) {
            Some((k, offset)) => r matches Some(x) && (x.0.0@, x.0.1@, x.0.2) == k && x.1 == offset,
            None => r is None,
        },
{
    proof {
        lemma_pow256_values();
    }
    let mut r: Reader = Reader::new(key);
    let group: String = match r.string() {
        Ok(s) => s,
        Err(_) => {
            return None;
        },
    };
    let topic: String = match r.string() {
        Ok(s) => s,
        Err(_) => {
            return None;
        },
    };
    let partition: u32 = match r.u32() {
        Ok(n) => n,
        Err(_) => {
            return None;
        },
    };
    if r.expect_end().is_err() || val.len() != 8 {
        return None;
    }
    Some(((group, topic, partition), get_le(val)))
}

struct Committed {
    group: String,
    topic: String,
    partition: u32,
    offset: u64,
}

spec fn place(c: Committed) -> Place {
    (c.group@, c.topic@, c.partition)
}

spec fn cached(cs: Seq<Committed>) -> Map<Place, u64>
    decreases cs.len(),
{
    if cs.len() == 0 {
        Map::empty()
    } else {
        cached(cs.drop_last()).insert(place(cs.last()), cs.last().offset)
    }
}

spec fn places_distinct(cs: Seq<Committed>) -> bool {
    forall|i: int, j: int| 0 <= i < j < cs.len() ==> place(#[trigger] cs[i]) != place(#[trigger] cs[j])
}

/// The committed offsets of all groups.
pub struct OffsetsStore {
    cache: Vec<Committed>,
}

impl View for OffsetsStore {
    type V = Map<Place, u64>;

    closed spec fn view(&self) -> Map<Place, u64> {
        cached(self.cache@)
    }
}

proof fn lemma_cached(cs: Seq<Committed>, i: int)
    requires
        places_distinct(cs),
        0 <= i < cs.len(),
    ensures
        cached(cs).contains_key(place(cs[i])),
        cached(cs)[place(cs[i])] == cs[i].offset,
    decreases cs.len(),
{
    if i < cs.len() - 1 {
        lemma_cached(cs.drop_last(), i);
        assert(place(cs[i]) != place(cs[cs.len() - 1]));
    }
}

proof fn lemma_not_cached(cs: Seq<Committed>, k: Place)
    requires
        forall|i: int| 0 <= i < cs.len() ==> place(#[trigger] cs[i]) != k,
    ensures
        !cached(cs).contains_key(k),
    decreases cs.len(),
{
    if cs.len() > 0 {
        assert(place(cs[cs.len() - 1]) != k);
        lemma_not_cached(cs.drop_last(), k);
    }
}

proof fn lemma_recached(cs: Seq<Committed>, i: int, c: Committed)
    requires
        places_distinct(cs),
        0 <= i < cs.len(),
        place(c) == place(cs[i]),
    ensures
        cached(cs.update(i, c)) == cached(cs).insert(place(c), c.offset),
        places_distinct(cs.update(i, c)),
    decreases cs.len(),
{
    let r = cs.update(i, c);
    if i == cs.len() - 1 {
        assert(r.drop_last() =~= cs.drop_last());
        assert(cached(r) =~= cached(cs).insert(place(c), c.offset));
    } else {
        lemma_recached(cs.drop_last(), i, c);
        assert(r.drop_last() =~= cs.drop_last().update(i, c));
        assert(place(cs[i]) != place(cs[cs.len() - 1]));
        assert(cached(r) =~= cached(cs).insert(place(c), c.offset));
    }
    assert forall|a: int, b: int| 0 <= a < b < r.len() implies place(#[trigger] r[a]) != place(
        #[trigger] r[b],
    ) by {
        assert(place(r[a]) == place(cs[a]) && place(r[b]) == place(cs[b]));
    }
}

impl OffsetsStore {
    pub closed spec fn ok(self) -> bool {
        places_distinct(self.cache@)
    }

    pub fn new() -> (r: Self)
        ensures
            r.ok(),
            r@ == Map::<Place, u64>::empty(),
    {
        OffsetsStore { cache: Vec::new() }
    }

    fn find(&self, group: &str, topic: &str, partition: u32) -> (r: Option<usize>)
        requires
            self.ok(),
        ensures
            match r {
                Some(i) => i < self.cache@.len() && place(self.cache@[i as int]) == (
                    group@,
                    topic@,
                    partition,
                ) && self@.contains_key((group@, topic@, partition)) && self@[(
                    group@,
                    topic@,
                    partition,
                )] == self.cache@[i as int].offset,
                None => !self@.contains_key((group@, topic@, partition)) && forall|i: int|
                    0 <= i < self.cache@.len() ==> place(#[trigger] self.cache@[i]) != (
                        group@,
                        topic@,
                        partition,
                    ),
            },
    {
        let ghost k = (group@, topic@, partition);
        let mut i: usize = 0;
        while i < self.cache.len()
            invariant
                i <= self.cache@.len(),
                k == (group@, topic@, partition),
                places_distinct(self.cache@),
                forall|j: int| 0 <= j < i ==> place(#[trigger] self.cache@[j]) != k,
            decreases self.cache@.len() - i,
        {
            let c: &Committed = &self.cache[i];
            if c.partition == partition && crate::text::same_text(c.group.as_str(), group)
                && crate::text::same_text(c.topic.as_str(), topic) {
                proof {
                    lemma_cached(self.cache@, i as int);
                }
                return Some(i);
            }
            i += 1;
        }
        proof {
            lemma_not_cached(self.cache@, k);
        }
        None
    }

    /// Takes in a commit that the log has acknowledged.
    pub fn commit(&mut self, group: String, topic: String, partition: u32, offset: u64)
        requires
            old(self).ok(),
        ensures
            final(self).ok(),
            final(self)@ == old(self)@.insert((group@, topic@, partition), offset),
    {
        let ghost before = self.cache@;
        match self.find(group.as_str(), topic.as_str(), partition) {
            Some(i) => {
                let c: &mut Committed = &mut self.cache[i];
                c.offset = offset;
                proof {
                    let c = self.cache@[i as int];
                    lemma_recached(before, i as int, c);
                    assert(self.cache@ =~= before.update(i as int, c));
                }
            },
            None => {
                self.cache.push(Committed { group, topic, partition, offset });
                proof {
                    assert(self.cache@.drop_last() =~= before);
                }
            },
        }
    }

    pub fn fetch(&self, group: &str, topic: &str, partition: u32) -> (r: Option<u64>)
        requires
            self.ok(),
        ensures
            r == if self@.contains_key((group@, topic@, partition)) {
                Some(self@[(group@, topic@, partition)])
            } else {
                None
            },
    {
        match self.find(group, topic, partition) {
            Some(i) => Some(self.cache[i].offset),
            None => None,
        }
    }

    /// Takes in records of the log, in its order. Returns the offset to go on
    /// from; `None` where there was no record.
    pub fn replay(&mut self, records: &Vec<Record>) -> (next: Option<u64>)
        requires
            old(self).ok(),
            records@.len() > 0 ==> records@.last().offset < u64::MAX,
        ensures
            final(self).ok(),
            final(self)@ == replayed(old(self)@, record_views(records@)),
            records@.len() == 0 ==> next is None,
            records@.len() > 0 ==> next == Some((records@.last().offset + 1) as u64),
    {
        let ghost rs = record_views(records@);
        let ghost start = self@;
        let mut i: usize = 0;
        assert(rs.take(0) =~= Seq::empty());
        while i < records.len()
            invariant
                i <= records@.len(),
                rs == record_views(records@),
                self.ok(),
                self@ == replayed(start, rs.take(i as int)),
            decreases records@.len() - i,
        {
            proof {
                assert(rs.take(i + 1).drop_last() =~= rs.take(i as int));
                assert(rs.take(i + 1).last() == records@[i as int]@);
            }
            if let Some(key) = &records[i].key {
                if let Some(e) = decode_entry(key.as_slice(), records[i].value.as_slice()) {
                    let ((group, topic, partition), offset) = e;
                    self.commit(group, topic, partition, offset);
                }
            }
            i += 1;
        }
        assert(rs.take(i as int) =~= rs);
        if records.len() == 0 {
            None
        } else {
            Some(records[records.len() - 1].offset + 1)
        }
    }
}

} // verus!
