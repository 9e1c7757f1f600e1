//! Producers: records are batched, and shipped as one Produce per batch.

use super::Connection;
use crate::crc::crc32;
use crate::proto::{opt_view, Acks, ProduceRecord, Request};
use vstd::prelude::*;

verus! {

/// Where records with a hash go: the same place for the same number of
/// partitions.
pub fn partition_for_hash(hash: u32, partitions: u32) -> (r: u32)
    requires
        partitions > 0,
    ensures
        r == hash % partitions,
        r < partitions,
{
    hash % partitions
}

/// The partition for a key: its CRC-32 modulo the number of partitions.
pub fn partition_for_key(key: &[u8], partitions: u32) -> (r: u32)
    requires
        partitions > 0,
    ensures
        r == crc32(key@) % partitions,
        r < partitions,
{
    partition_for_hash(crc32fast::hash(key), partitions)
}

/// Buffers records and ships them as one Produce per `batch_records`.
/// Client-side batching is explicit here rather than hidden behind a linger
/// timer.
pub struct Producer {
    pub topic: String,
    pub partition: u32,
    pub acks: Acks,
    pub batch_records: usize,
    pub buf: Vec<ProduceRecord>,
}

/// A produce of these records, in any leader epoch.
pub open spec fn ships(
    r: Request,
    topic: Seq<char>,
    partition: u32,
    acks: Acks,
    records: Seq<ProduceRecord>,
) -> bool {
    r matches Request::Produce { topic: t, partition: p, acks: a, leader_epoch, records: rs } && t@
        == topic && p == partition && a == acks && leader_epoch == 0 && rs@ == records
}

/// The records that a request to produce carries.
pub open spec fn carried(r: Option<Request>) -> Seq<ProduceRecord> {
    match r {
        Some(req) => match req {
            Request::Produce { records, .. } => records@,
            _ => Seq::empty(),
        },
        None => Seq::empty(),
    }
}


/// The number of records in a batch: at least one.
pub open spec fn batch_of(n: usize) -> usize {
    if n == 0 {
        1
    } else {
        n
    }
}

impl Producer {
    pub fn new(topic: String, partition: u32, acks: Acks, batch_records: usize) -> (r: Self)
        ensures
            r.topic@ == topic@,
            r.partition == partition,
            r.acks == acks,
            r.batch_records == batch_of(batch_records),
            r.buf@.len() == 0,
    {
        let batch_records: usize = if batch_records == 0 {
            1
        } else {
            batch_records
        };
        Producer { topic, partition, acks, batch_records, buf: Vec::new() }
    }

    /// Buffers one record; returns the batch to ship when it is full.
    pub fn send(&mut self, key: Option<Vec<u8>>, value: Vec<u8>) -> (r: Option<Request>)
        ensures
            ({
                let all = old(self).buf@.push(ProduceRecord { key, value });
                if all.len() >= old(self).batch_records {
                    &&& r matches Some(req) && ships(
                        req,
                        old(self).topic@,
                        old(self).partition,
                        old(self).acks,
                        all,
                    )
                    &&& final(self).buf@.len() == 0
                } else {
                    r is None && final(self).buf@ == all
                }
            }),
            final(self).topic == old(self).topic,
            final(self).partition == old(self).partition,
            final(self).acks == old(self).acks,
            final(self).batch_records == old(self).batch_records,
            r is Some <==> old(self).buf@.len() + 1 >= old(self).batch_records,
            r is None ==> final(self).buf@.len() == old(self).buf@.len() + 1,
            carried(r) + final(self).buf@ == old(self).buf@.push(ProduceRecord { key, value }),
    {
        self.buf.push(ProduceRecord { key, value });
        if self.buf.len() >= self.batch_records {
            self.flush()
        } else {
            None
        }
    }

    /// The buffered records as a batch to ship; none where there are none.
    pub fn flush(&mut self) -> (r: Option<Request>)
        ensures
            if old(self).buf@.len() == 0 {
                r is None
            } else {
                r matches Some(req) && ships(
                    req,
                    old(self).topic@,
                    old(self).partition,
                    old(self).acks,
                    old(self).buf@,
                )
            },
            final(self).buf@.len() == 0,
            final(self).topic == old(self).topic,
            final(self).partition == old(self).partition,
            final(self).acks == old(self).acks,
            final(self).batch_records == old(self).batch_records,
            carried(r) + final(self).buf@ == old(self).buf@,
    {
        if self.buf.len() == 0 {
            return None;
        }
        let mut records: Vec<ProduceRecord> = Vec::new();
        core::mem::swap(&mut records, &mut self.buf);
        Some(Connection::produce(self.topic.as_str(), self.partition, self.acks, 0, records))
    }
}

/// Ships records of one topic to its partitions: a keyed record goes where its
/// key's hash says, others go round. Each partition has a batch of its own.
pub struct TopicProducer {
    topic: String,
    acks: Acks,
    batch_records: usize,
    next: u32,
    bufs: Vec<Vec<ProduceRecord>>,
}

pub ghost struct TopicBatches {
    pub topic: Seq<char>,
    pub acks: Acks,
    pub batch: usize,
    pub next: u32,
    pub bufs: Seq<Seq<ProduceRecord>>,
}

spec fn buf_views(v: Seq<Vec<ProduceRecord>>) -> Seq<Seq<ProduceRecord>> {
    v.map_values(|b: Vec<ProduceRecord>| b@)
}

impl View for TopicProducer {
    type V = TopicBatches;

    closed spec fn view(&self) -> TopicBatches {
        TopicBatches {
            topic: self.topic@,
            acks: self.acks,
            batch: self.batch_records,
            next: self.next,
            bufs: buf_views(self.bufs@),
        }
    }
}

/// Where a record goes.
pub open spec fn target(s: TopicBatches, key: Option<Seq<u8>>) -> u32 {
    match key {
        Some(k) => crc32(k) % s.bufs.len() as u32,
        None => s.next % s.bufs.len() as u32,
    }
}

/// Whose turn it is after a record.
pub open spec fn turn_after(s: TopicBatches, key: Option<Seq<u8>>) -> u32 {
    match key {
        Some(_) => s.next,
        None => s.next.wrapping_add(1),
    }
}

impl TopicProducer {
    /// There is a partition to send to.
    pub open spec fn ok(self) -> bool {
        0 < self@.bufs.len() <= u32::MAX
    }

    /// A producer for a topic of so many partitions.
    pub fn new(topic: String, acks: Acks, batch_records: usize, partitions: u32) -> (r: Self)
        requires
            partitions > 0,
        ensures
            r.ok(),
            r@.topic == topic@,
            r@.acks == acks,
            r@.batch == batch_of(batch_records),
            r@.next == 0,
            r@.bufs.len() == partitions,
            forall|i: int| 0 <= i < partitions ==> (#[trigger] r@.bufs[i]).len() == 0,
    {
        let mut bufs: Vec<Vec<ProduceRecord>> = Vec::new();
        let mut i: u32 = 0;
        while i < partitions
            invariant
                i <= partitions,
                bufs@.len() == i,
                forall|j: int| 0 <= j < i ==> (#[trigger] bufs@[j])@.len() == 0,
            decreases partitions - i,
        {
            bufs.push(Vec::new());
            i += 1;
        }
        let batch_records: usize = if batch_records == 0 {
            1
        } else {
            batch_records
        };
        let r = TopicProducer { topic, acks, batch_records, next: 0, bufs };
        assert forall|j: int| 0 <= j < partitions implies (#[trigger] r@.bufs[j]).len() == 0 by {
            assert(r@.bufs[j] == r.bufs@[j]@);
        }
        r
    }

    fn ship(&mut self, p: usize) -> (r: Option<(u32, Request)>)
        requires
            old(self).ok(),
            p < old(self)@.bufs.len(),
        ensures
            final(self).ok(),
            final(self)@ == (TopicBatches {
                bufs: old(self)@.bufs.update(p as int, Seq::empty()),
                ..old(self)@
            }),
            if old(self)@.bufs[p as int].len() == 0 {
                r is None
            } else {
                r matches Some(x) && x.0 == p && ships(
                    x.1,
                    old(self)@.topic,
                    p as u32,
                    old(self)@.acks,
                    old(self)@.bufs[p as int],
                )
            },
    {
        let ghost s = self@;
        let mut records: Vec<ProduceRecord> = Vec::new();
        core::mem::swap(&mut records, &mut self.bufs[p]);
        proof {
            assert(records@ == s.bufs[p as int]);
            assert(self.bufs@[p as int]@ =~= Seq::empty());
            assert(self@.bufs =~= s.bufs.update(p as int, Seq::empty()));
        }
        if records.len() == 0 {
            return None;
        }
        Some(
            (p as u32, Connection::produce(self.topic.as_str(), p as u32, self.acks, 0, records)),
        )
    }

    /// Buffers one record; returns its partition's batch to ship when it is
    /// full.
    pub fn send(&mut self, key: Option<Vec<u8>>, value: Vec<u8>) -> (r: Option<(u32, Request)>)
        requires
            old(self).ok(),
        ensures
            final(self).ok(),
            final(self)@ == sent(old(self)@, ProduceRecord { key, value }),
            ({
                let s = old(self)@;
                let p = target(s, opt_view(key));
                let next = turn_after(s, opt_view(key));
                let all = s.bufs[p as int].push(ProduceRecord { key, value });
                if all.len() >= s.batch {
                    &&& final(self)@ == (TopicBatches {
                        next,
                        bufs: s.bufs.update(p as int, Seq::empty()),
                        ..s
                    })
                    &&& r matches Some(x) && x.0 == p && ships(x.1, s.topic, p, s.acks, all)
                } else {
                    &&& final(self)@ == (TopicBatches {
                        next,
                        bufs: s.bufs.update(p as int, all),
                        ..s
                    })
                    &&& r is None
                }
            }),
            ({
                let p = target(old(self)@, opt_view(key)) as int;
                let ship = match r {
                    Some(x) => Some(x.1),
                    None => None,
                };
                carried(ship) + final(self)@.bufs[p] == old(self)@.bufs[p].push(
                    ProduceRecord { key, value },
                )
            }),
    {
        let ghost s = self@;
        let n: u32 = self.bufs.len() as u32;
        let p: usize = match &key {
            Some(k) => partition_for_key(k.as_slice(), n) as usize,
            None => {
                let at: u32 = self.next % n;
                self.next = self.next.wrapping_add(1);
                at as usize
            },
        };
        let record = ProduceRecord { key, value };
        let ghost all = s.bufs[p as int].push(record);
        let buf: &mut Vec<ProduceRecord> = &mut self.bufs[p];
        buf.push(record);
        let full: bool = buf.len() >= self.batch_records;
        proof {
            assert(self.bufs@[p as int]@ == all);
            assert(self@.bufs =~= s.bufs.update(p as int, all));
        }
        if full {
            let r: Option<(u32, Request)> = self.ship(p);
            proof {
                assert(self@.bufs =~= s.bufs.update(p as int, Seq::empty()));
            }
            r
        } else {
            None
        }
    }

    /// The batch of partition `p` to ship; none where it is empty.
    pub fn flush(&mut self, p: u32) -> (r: Option<(u32, Request)>)
        requires
            old(self).ok(),
            p < old(self)@.bufs.len(),
        ensures
            final(self).ok(),
            final(self)@ == (TopicBatches {
                bufs: old(self)@.bufs.update(p as int, Seq::empty()),
                ..old(self)@
            }),
            if old(self)@.bufs[p as int].len() == 0 {
                r is None
            } else {
                r matches Some(x) && x.0 == p && ships(
                    x.1,
                    old(self)@.topic,
                    p,
                    old(self)@.acks,
                    old(self)@.bufs[p as int],
                )
            },
            ({
                let ship = match r {
                    Some(x) => Some(x.1),
                    None => None,
                };
                carried(ship) + final(self)@.bufs[p as int] == old(self)@.bufs[p as int]
            }),
    {
        self.ship(p as usize)
    }

    pub fn partitions(&self) -> (r: u32)
        requires
            self.ok(),
        ensures
            r == self@.bufs.len(),
    {
        self.bufs.len() as u32
    }
}

/// The producer after a record was sent.
pub open spec fn sent(s: TopicBatches, r: ProduceRecord) -> TopicBatches {
    let p = target(s, opt_view(r.key)) as int;
    let all = s.bufs[p].push(r);
    TopicBatches {
        next: turn_after(s, opt_view(r.key)),
        bufs: s.bufs.update(
            p,
            if all.len() >= s.batch {
                Seq::empty()
            } else {
                all
            },
        ),
        ..s
    }
}

/// The producer after a row of records was sent.
pub open spec fn all_sent(s: TopicBatches, rs: Seq<ProduceRecord>) -> TopicBatches
    decreases rs.len(),
{
    if rs.len() == 0 {
        s
    } else {
        sent(all_sent(s, rs.drop_last()), rs.last())
    }
}

/// How many of the records have no key.
pub open spec fn keyless(rs: Seq<ProduceRecord>) -> nat {
    rs.filter(|r: ProduceRecord| r.key is None).len()
}

proof fn lemma_turn(s: TopicBatches, rs: Seq<ProduceRecord>)
    requires
        0 < s.bufs.len() <= u32::MAX,
        s.next + keyless(rs) <= u32::MAX,
    ensures
        all_sent(s, rs).next == s.next + keyless(rs),
        all_sent(s, rs).bufs.len() == s.bufs.len(),
    decreases rs.len(),
{
    reveal(Seq::filter);
    if rs.len() > 0 {
        lemma_turn(s, rs.drop_last());
        let t = all_sent(s, rs.drop_last());
        assert(target(t, opt_view(rs.last().key)) < t.bufs.len());
    }
}

/// Records without a key go round the partitions: whatever was sent between
/// them, two such records lie one partition further for each record without a
/// key from the first on. So neighbours go to neighbouring partitions, and of as
/// many as there are partitions no two go to the same. (The count of turns
/// starts over after its last value; the round may break there.)
pub proof fn law_turns(s: TopicBatches, rs: Seq<ProduceRecord>)
    requires
        0 < s.bufs.len() <= u32::MAX,
        s.next + keyless(rs) <= u32::MAX,
    ensures
        ({
            let n = s.bufs.len() as int;
            let first = target(s, None) as int;
            let later = target(all_sent(s, rs), None) as int;
            &&& 0 <= first < n
            &&& later == (first + keyless(rs)) % n
            &&& keyless(rs) == 0 ==> later == first
            &&& keyless(rs) == 1 ==> later == if first == n - 1 {
                0
            } else {
                first + 1
            }
            &&& 0 < keyless(rs) < n ==> later != first
        }),
{
    let n = s.bufs.len() as int;
    let k = keyless(rs) as int;
    lemma_turn(s, rs);
    let a = s.next as int;
    let first = a % n;
    assert(target(s, None) == first);
    assert(target(all_sent(s, rs), None) == (a + k) % n);
    vstd::arithmetic::div_mod::lemma_mod_bound(a, n);
    vstd::arithmetic::div_mod::lemma_add_mod_noop_right(k, a, n);
    assert((k + a % n) % n == (a + k) % n);
    if k < n {
        if first + k < n {
            vstd::arithmetic::div_mod::lemma_small_mod((first + k) as nat, n as nat);
        } else {
            vstd::arithmetic::div_mod::lemma_mod_add_multiples_vanish(first + k - n, n);
            vstd::arithmetic::div_mod::lemma_small_mod((first + k - n) as nat, n as nat);
        }
    } else if k == 1 {
        assert(n == 1);
    }
}

/// After `k` records without a key, the next one goes to partition `p`.
pub open spec fn has_turn(s: TopicBatches, k: nat, p: u32) -> bool {
    forall|rs: Seq<ProduceRecord>| #[trigger]
        keyless(rs) == k ==> target(all_sent(s, rs), None) == p
}

/// Every partition has its turn: among as many records without a key as there
/// are partitions, one goes to each.
pub proof fn law_every_turn(s: TopicBatches, p: u32)
    requires
        0 < s.bufs.len() <= u32::MAX,
        s.next + s.bufs.len() <= u32::MAX,
        p < s.bufs.len(),
    ensures
        exists|k: nat| k < s.bufs.len() && #[trigger] has_turn(s, k, p),
{
    let n = s.bufs.len() as int;
    let first = target(s, None) as int;
    let k = (if p >= first {
        p - first
    } else {
        p - first + n
    }) as nat;
    vstd::arithmetic::div_mod::lemma_mod_bound(s.next as int, n);
    assert forall|rs: Seq<ProduceRecord>| #[trigger] keyless(rs) == k implies target(
        all_sent(s, rs),
        None,
    ) == p by {
        law_turns(s, rs);
        if p >= first {
            vstd::arithmetic::div_mod::lemma_small_mod(p as nat, n as nat);
        } else {
            vstd::arithmetic::div_mod::lemma_mod_add_multiples_vanish(p as int, n);
            vstd::arithmetic::div_mod::lemma_small_mod(p as nat, n as nat);
        }
    }
    assert(has_turn(s, k, p));
}

/// A record with a key goes where its hash says, and takes nobody's turn.
pub proof fn law_keyed(s: TopicBatches, r: ProduceRecord)
    requires
        0 < s.bufs.len() <= u32::MAX,
        r.key is Some,
    ensures
        target(s, opt_view(r.key)) as int == crc32(r.key->0@) as int % s.bufs.len() as int,
        sent(s, r).next == s.next,
{
}

/// Nothing that was sent is lost or doubled: a record is at the end of its
/// partition's buffer, or that buffer was full with it and is empty; the other
/// partitions' buffers are as they were.
pub proof fn law_sent(s: TopicBatches, r: ProduceRecord, other: int)
    requires
        0 < s.bufs.len() <= u32::MAX,
    ensures
        ({
            let p = target(s, opt_view(r.key)) as int;
            let t = sent(s, r);
            &&& 0 <= p < s.bufs.len()
            &&& t.bufs.len() == s.bufs.len()
            &&& t.topic == s.topic && t.acks == s.acks && t.batch == s.batch
            &&& s.bufs[p].len() + 1 < s.batch ==> t.bufs[p] == s.bufs[p].push(r)
            &&& s.bufs[p].len() + 1 >= s.batch ==> t.bufs[p].len() == 0
            &&& 0 <= other < s.bufs.len() && other != p ==> t.bufs[other] == s.bufs[other]
        }),
{
}

/// Records of one key stay together, and so in order: whatever else was sent,
/// they go to one partition.
pub proof fn law_key_sticks(s: TopicBatches, t: TopicBatches, key: Seq<u8>)
    requires
        s.bufs.len() == t.bufs.len(),
    ensures
        target(s, Some(key)) == target(t, Some(key)),
{
}

} // verus!
