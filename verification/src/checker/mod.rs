//! Verifies the delivery contract from client-observed histories.
//!
//! Nothing is believed but what clients saw. A workload records every *acked*
//! produce (a unique id embedded in the value) and every consumed record;
//! `History::verify` then checks:
//!
//! - **At-least-once:** every acked id was consumed at least once. Violations
//!   here are contract violations, full stop.
//! - **Duplicates are counted, not hidden:** redelivery after a rebalance or
//!   retry is legal and reported honestly.
//! - **Per-consumer offset monotonicity:** within one (consumer, topic,
//!   partition) stream, offsets strictly increase — no reordering, no rewind
//!   the consumer didn't ask for.
//! - **Offset consistency:** if two consumers read the same (topic,
//!   partition, offset), they saw the same id — one log, one truth.

pub mod file;
pub mod gaps;
pub mod laws;
pub mod summary;

use crate::order::{rising_numbers, sort_distinct, texts};
use crate::text::{decimal, push_decimal};
use std::collections::{HashMap, HashSet};
use vstd::prelude::*;
use vstd::std_specs::hash::*;
use vstd::string::*;

verus! {

#[derive(Debug, Clone)]
pub struct ProducedRecord {
    pub id: u64,
    pub topic: String,
}

#[derive(Debug, Clone)]
pub struct ConsumedRecord {
    pub consumer: String,
    /// The consumer's group generation when it read this record. Offsets must
    /// be monotonic *within* one generation; across a rebalance a consumer
    /// legitimately rewinds to the committed offset (that rewind IS
    /// at-least-once redelivery). Standalone consumers pass 0.
    pub generation: u64,
    pub topic: String,
    pub partition: u32,
    pub offset: u64,
    pub id: u64,
}

pub struct History {
    produced: Vec<ProducedRecord>,
    consumed: Vec<ConsumedRecord>,
}

/// An acked produce.
pub struct Produced {
    pub id: u64,
    pub topic: Seq<char>,
}

/// A consumed record.
pub struct Consumed {
    pub consumer: Seq<char>,
    pub generation: u64,
    pub topic: Seq<char>,
    pub partition: u32,
    pub offset: u64,
    pub id: u64,
}

/// What clients saw.
pub struct Events {
    pub produced: Seq<Produced>,
    pub consumed: Seq<Consumed>,
}

impl View for ProducedRecord {
    type V = Produced;

    open spec fn view(&self) -> Produced {
        Produced { id: self.id, topic: self.topic@ }
    }
}

impl View for ConsumedRecord {
    type V = Consumed;

    open spec fn view(&self) -> Consumed {
        Consumed {
            consumer: self.consumer@,
            generation: self.generation,
            topic: self.topic@,
            partition: self.partition,
            offset: self.offset,
            id: self.id,
        }
    }
}

impl View for History {
    type V = Events;

    closed spec fn view(&self) -> Events {
        Events {
            produced: self.produced@.map_values(|p: ProducedRecord| p@),
            consumed: self.consumed@.map_values(|c: ConsumedRecord| c@),
        }
    }
}

#[derive(Debug)]
pub struct Report {
    pub produced_acked: usize,
    pub consumed_total: usize,
    pub distinct_consumed: usize,
    /// Acked but never consumed: at-least-once violations.
    pub missing_ids: Vec<u64>,
    /// Deliveries beyond the first per id (legal, counted).
    pub duplicate_deliveries: usize,
    pub monotonicity_violations: Vec<String>,
    /// Same (topic, partition, offset) observed with different ids.
    pub divergent_offsets: Vec<String>,
    /// Offsets in `0..=max_consumed` nobody consumed (only checked by
    /// `verify_from_start`, which asserts readers began at offset 0).
    pub offset_gaps: Vec<String>,
}

/// The ids that were produced.
pub open spec fn produced_set(e: Events) -> Set<u64> {
    e.produced.map_values(|p: Produced| p.id).to_set()
}

/// The ids that were consumed.
pub open spec fn consumed_set(e: Events) -> Set<u64> {
    e.consumed.map_values(|c: Consumed| c.id).to_set()
}

/// Two records of one consumer stream: one consumer in one generation on one
/// partition.
pub open spec fn same_stream(a: Consumed, b: Consumed) -> bool {
    &&& a.consumer == b.consumer
    &&& a.generation == b.generation
    &&& a.topic == b.topic
    &&& a.partition == b.partition
}

/// Two records of one partition.
pub open spec fn same_slot(a: Consumed, b: Consumed) -> bool {
    a.topic == b.topic && a.partition == b.partition
}

/// The offset of the last record of a stream.
pub open spec fn last_offset(cs: Seq<Consumed>, c: Consumed) -> Option<u64>
    decreases cs.len(),
{
    if cs.len() == 0 {
        None
    } else if same_stream(cs.last(), c) {
        Some(cs.last().offset)
    } else {
        last_offset(cs.drop_last(), c)
    }
}

/// The id that was first seen at the place of a record.
pub open spec fn first_id(cs: Seq<Consumed>, c: Consumed) -> Option<u64>
    decreases cs.len(),
{
    if cs.len() == 0 {
        None
    } else {
        match first_id(cs.drop_last(), c) {
            Some(id) => Some(id),
            None => if same_slot(cs.last(), c) && cs.last().offset == c.offset {
                Some(cs.last().id)
            } else {
                None
            },
        }
    }
}

pub open spec fn rewind_text(c: Consumed, prev: u64) -> Seq<char> {
    c.consumer + " (gen "@ + decimal(c.generation as nat) + ") on "@ + c.topic + "-"@ + decimal(
        c.partition as nat,
    ) + ": offset "@ + decimal(c.offset as nat) + " after "@ + decimal(prev as nat)
}

pub open spec fn divergence_text(c: Consumed, first: u64) -> Seq<char> {
    c.topic + "-"@ + decimal(c.partition as nat) + " offset "@ + decimal(c.offset as nat)
        + ": id "@ + decimal(first as nat) + " vs id "@ + decimal(c.id as nat)
}

/// One text for each record whose offset is not behind the last one of its
/// stream.
pub open spec fn rewinds(cs: Seq<Consumed>) -> Seq<Seq<char>>
    decreases cs.len(),
{
    if cs.len() == 0 {
        Seq::empty()
    } else {
        let before = cs.drop_last();
        let c = cs.last();
        match last_offset(before, c) {
            Some(prev) => if c.offset <= prev {
                rewinds(before).push(rewind_text(c, prev))
            } else {
                rewinds(before)
            },
            None => rewinds(before),
        }
    }
}

/// One text for each record with another id than the first at its place.
pub open spec fn divergences(cs: Seq<Consumed>) -> Seq<Seq<char>>
    decreases cs.len(),
{
    if cs.len() == 0 {
        Seq::empty()
    } else {
        let before = cs.drop_last();
        let c = cs.last();
        match first_id(before, c) {
            Some(id) => if id != c.id {
                divergences(before).push(divergence_text(c, id))
            } else {
                divergences(before)
            },
            None => divergences(before),
        }
    }
}

/// What a report on events says, apart from gaps.
pub open spec fn reports(e: Events, r: Report) -> bool {
    &&& r.produced_acked == e.produced.len()
    &&& r.consumed_total == e.consumed.len()
    &&& r.distinct_consumed == consumed_set(e).len()
    &&& rising_numbers(r.missing_ids@)
    &&& forall|id: u64| #[trigger]
        r.missing_ids@.contains(id) <==> produced_set(e).contains(id) && !consumed_set(e).contains(
            id,
        )
    &&& r.duplicate_deliveries == e.consumed.len() - consumed_set(e).len()
    &&& texts(r.monotonicity_violations@) == rewinds(e.consumed)
    &&& texts(r.divergent_offsets@) == divergences(e.consumed)
}

impl Report {
    pub open spec fn clean(self) -> bool {
        &&& self.missing_ids@.len() == 0
        &&& self.monotonicity_violations@.len() == 0
        &&& self.divergent_offsets@.len() == 0
        &&& self.offset_gaps@.len() == 0
    }

    pub fn is_ok(&self) -> (r: bool)
        ensures
            r == self.clean(),
            r <==> self.missing_ids@.len() == 0 && self.monotonicity_violations@.len() == 0
                && self.divergent_offsets@.len() == 0 && self.offset_gaps@.len() == 0,
    {
        self.missing_ids.len() == 0 && self.monotonicity_violations.len() == 0
            && self.divergent_offsets.len() == 0 && self.offset_gaps.len() == 0
    }
}

/// Where a stream was seen first, and its last offset.
struct Stream {
    first: usize,
    last: u64,
}

/// Where a partition was seen first, and the first id at each of its offsets.
struct Slot {
    first: usize,
    ids: HashMap<u64, u64>,
}

fn stream_matches(a: &ConsumedRecord, b: &ConsumedRecord) -> (r: bool)
    ensures
        r == same_stream(a@, b@),
{
    a.generation == b.generation && a.partition == b.partition && a.consumer == b.consumer
        && a.topic == b.topic
}

fn slot_matches(a: &ConsumedRecord, b: &ConsumedRecord) -> (r: bool)
    ensures
        r == same_slot(a@, b@),
{
    a.partition == b.partition && a.topic == b.topic
}

fn rewind_message(c: &ConsumedRecord, prev: u64) -> (text: String)
    ensures
        text@ == rewind_text(c@, prev),
{
    let mut text: String = c.consumer.clone();
    text.append(" (gen ");
    push_decimal(&mut text, c.generation);
    text.append(") on ");
    text.append(c.topic.as_str());
    text.append("-");
    push_decimal(&mut text, c.partition as u64);
    text.append(": offset ");
    push_decimal(&mut text, c.offset);
    text.append(" after ");
    push_decimal(&mut text, prev);
    text
}

fn divergence_message(c: &ConsumedRecord, first: u64) -> (text: String)
    ensures
        text@ == divergence_text(c@, first),
{
    let mut text: String = c.topic.clone();
    text.append("-");
    push_decimal(&mut text, c.partition as u64);
    text.append(" offset ");
    push_decimal(&mut text, c.offset);
    text.append(": id ");
    push_decimal(&mut text, first);
    text.append(" vs id ");
    push_decimal(&mut text, c.id);
    text
}

impl History {
    pub fn new() -> (h: Self)
        ensures
            h@.produced.len() == 0,
            h@.consumed.len() == 0,
    {
        History { produced: Vec::new(), consumed: Vec::new() }
    }

    /// Record a produce only once its ack (or covering flush ack) arrived.
    pub fn record_produced(&mut self, id: u64, topic: &str)
        ensures
            final(self)@.produced == old(self)@.produced.push(Produced { id, topic: topic@ }),
            final(self)@.consumed == old(self)@.consumed,
    {
        let ghost before = self@;
        self.produced.push(ProducedRecord { id, topic: topic.to_owned() });
        assert(self@.produced =~= before.produced.push(Produced { id, topic: topic@ }));
    }

    pub fn record_consumed(
        &mut self,
        consumer: &str,
        generation: u64,
        topic: &str,
        partition: u32,
        offset: u64,
        id: u64,
    )
        ensures
            final(self)@.produced == old(self)@.produced,
            final(self)@.consumed == old(self)@.consumed.push(
                Consumed { consumer: consumer@, generation, topic: topic@, partition, offset, id },
            ),
    {
        let ghost before = self@;
        self.consumed.push(
            ConsumedRecord {
                consumer: consumer.to_owned(),
                generation,
                topic: topic.to_owned(),
                partition,
                offset,
                id,
            },
        );
        assert(self@.consumed =~= before.consumed.push(
            Consumed { consumer: consumer@, generation, topic: topic@, partition, offset, id },
        ));
    }

    pub fn produced_ids(&self) -> (r: HashSet<u64>)
        ensures
            r@ == produced_set(self@),
    {
        broadcast use group_hash_axioms;

        let mut r: HashSet<u64> = HashSet::new();
        let ghost ids = self@.produced.map_values(|p: Produced| p.id);
        let mut i: usize = 0;
        assert(r@ =~= ids.take(0).to_set());
        while i < self.produced.len()
            invariant
                i <= self.produced@.len(),
                ids == self@.produced.map_values(|p: Produced| p.id),
                r@ == ids.take(i as int).to_set(),
            decreases self.produced@.len() - i,
        {
            r.insert(self.produced[i].id);
            proof {
                lemma_take_set(ids, i as int);
                assert(ids[i as int] == self.produced@[i as int].id);
            }
            i = i + 1;
        }
        assert(ids.take(i as int) =~= ids);
        r
    }

    pub fn consumed_ids(&self) -> (r: HashSet<u64>)
        ensures
            r@ == consumed_set(self@),
    {
        broadcast use group_hash_axioms;

        let mut r: HashSet<u64> = HashSet::new();
        let ghost ids = self@.consumed.map_values(|c: Consumed| c.id);
        let mut i: usize = 0;
        assert(r@ =~= ids.take(0).to_set());
        while i < self.consumed.len()
            invariant
                i <= self.consumed@.len(),
                ids == self@.consumed.map_values(|c: Consumed| c.id),
                r@ == ids.take(i as int).to_set(),
            decreases self.consumed@.len() - i,
        {
            r.insert(self.consumed[i].id);
            proof {
                lemma_take_set(ids, i as int);
                assert(ids[i as int] == self.consumed@[i as int].id);
            }
            i = i + 1;
        }
        assert(ids.take(i as int) =~= ids);
        r
    }

    /// The acked ids that nobody consumed.
    fn missing(&self, seen: &HashSet<u64>) -> (r: Vec<u64>)
        requires
            seen@ == consumed_set(self@),
        ensures
            rising_numbers(r@),
            forall|id: u64| #[trigger]
                r@.contains(id) <==> produced_set(self@).contains(id) && !consumed_set(
                    self@,
                ).contains(id),
    {
        broadcast use group_hash_axioms;

        let mut lost: Vec<u64> = Vec::new();
        let ghost ids = self@.produced.map_values(|p: Produced| p.id);
        let mut i: usize = 0;
        while i < self.produced.len()
            invariant
                i <= self.produced@.len(),
                seen@ == consumed_set(self@),
                ids == self@.produced.map_values(|p: Produced| p.id),
                forall|id: u64| #[trigger]
                    lost@.contains(id) <==> ids.take(i as int).contains(id) && !seen@.contains(id),
            decreases self.produced@.len() - i,
        {
            let id: u64 = self.produced[i].id;
            let ghost before = lost@;
            let ghost some = ids.take(i as int);
            if !seen.contains(&id) {
                lost.push(id);
            }
            proof {
                assert(ids[i as int] == id);
                let more = ids.take(i + 1);
                assert(more =~= some.push(id));
                assert forall|x: u64| #[trigger] lost@.contains(x) <==> more.contains(x)
                    && !seen@.contains(x) by {
                    lemma_push_contains(some, id, x);
                    lemma_push_contains(before, id, x);
                    assert(before.contains(x) <==> some.contains(x) && !seen@.contains(x));
                }
            }
            i = i + 1;
        }
        assert(ids.take(i as int) =~= ids);
        let r: Vec<u64> = sort_distinct(&lost);
        proof {
            assert forall|id: u64| #[trigger] r@.contains(id) <==> produced_set(self@).contains(id)
                && !consumed_set(self@).contains(id) by {
                assert(r@.contains(id) <==> lost@.contains(id));
                assert(produced_set(self@).contains(id) <==> ids.contains(id));
            }
        }
        r
    }

    /// The records that do not come behind the last one of their stream.
    #[verifier::spinoff_prover]
    #[verifier::rlimit(50)]
    fn rewinds(&self) -> (r: Vec<String>)
        ensures
            texts(r@) == rewinds(self@.consumed),
    {
        let mut out: Vec<String> = Vec::new();
        let mut streams: Vec<Stream> = Vec::new();
        let ghost cs = self@.consumed;
        let mut i: usize = 0;
        assert(cs.take(0) =~= Seq::empty());
        assert(texts(out@) =~= Seq::empty());
        while i < self.consumed.len()
            invariant
                i <= self.consumed@.len(),
                cs == self@.consumed,
                texts(out@) == rewinds(cs.take(i as int)),
                streams_track(streams@, cs, i as int),
            decreases self.consumed@.len() - i,
        {
            let c: &ConsumedRecord = &self.consumed[i];
            let ghost some = cs.take(i as int);
            let ghost more = cs.take(i + 1);
            proof {
                assert(more.drop_last() =~= some);
                assert(more.last() == c@);
                assert(cs[i as int] == c@);
            }
            let mut k: usize = 0;
            while k < streams.len() && !stream_matches(&self.consumed[streams[k].first], c)
                invariant
                    k <= streams@.len(),
                    cs == self@.consumed,
                    i < self.consumed@.len(),
                    streams_track(streams@, cs, i as int),
                    c == self.consumed@[i as int],
                    forall|j: int|
                        0 <= j < k ==> !same_stream(cs[(#[trigger] streams@[j]).first as int], c@),
                decreases streams@.len() - k,
            {
                assert(cs[streams@[k as int].first as int] == self.consumed@[
                    streams@[k as int].first as int
                ]@);
                k = k + 1;
            }
            let ghost before = streams@;
            let ghost said = texts(out@);
            if k < streams.len() {
                let first: usize = streams[k].first;
                let prev: u64 = streams[k].last;
                proof {
                    assert(cs[first as int] == self.consumed@[first as int]@);
                    lemma_same_stream_offset(some, cs[first as int], c@);
                }
                if c.offset <= prev {
                    let text: String = rewind_message(c, prev);
                    let ghost t = text@;
                    out.push(text);
                    assert(texts(out@) =~= said.push(t));
                }
                streams.set(k, Stream { first, last: c.offset });
            } else {
                proof {
                    lemma_unseen_stream(before, cs, i as int, c@);
                }
                streams.push(Stream { first: i, last: c.offset });
            }
            proof {
                lemma_streams_step(before, streams@, cs, i as int, k as int);
            }
            i = i + 1;
        }
        assert(cs.take(i as int) =~= cs);
        out
    }

    /// The records with another id than the first at their place.
    fn divergences(&self) -> (r: Vec<String>)
        ensures
            texts(r@) == divergences(self@.consumed),
    {
        broadcast use group_hash_axioms;

        let mut out: Vec<String> = Vec::new();
        let mut slots: Vec<Slot> = Vec::new();
        let ghost cs = self@.consumed;
        let mut i: usize = 0;
        assert(cs.take(0) =~= Seq::empty());
        assert(texts(out@) =~= Seq::empty());
        while i < self.consumed.len()
            invariant
                i <= self.consumed@.len(),
                cs == self@.consumed,
                texts(out@) == divergences(cs.take(i as int)),
                slots_track(slots@, cs, i as int),
            decreases self.consumed@.len() - i,
        {
            let c: &ConsumedRecord = &self.consumed[i];
            let ghost some = cs.take(i as int);
            let ghost more = cs.take(i + 1);
            proof {
                assert(more.drop_last() =~= some);
                assert(more.last() == c@);
                assert(cs[i as int] == c@);
            }
            let mut k: usize = 0;
            while k < slots.len() && !slot_matches(&self.consumed[slots[k].first], c)
                invariant
                    k <= slots@.len(),
                    cs == self@.consumed,
                    i < self.consumed@.len(),
                    slots_track(slots@, cs, i as int),
                    c == self.consumed@[i as int],
                    forall|j: int|
                        0 <= j < k ==> !same_slot(cs[(#[trigger] slots@[j]).first as int], c@),
                decreases slots@.len() - k,
            {
                assert(cs[slots@[k as int].first as int] == self.consumed@[
                    slots@[k as int].first as int
                ]@);
                k = k + 1;
            }
            let ghost before = slots@;
            let ghost said = texts(out@);
            if k == slots.len() {
                proof {
                    lemma_unseen_slot(before, cs, i as int, c@);
                }
                let mut ids: HashMap<u64, u64> = HashMap::new();
                ids.insert(c.offset, c.id);
                slots.push(Slot { first: i, ids });
                proof {
                    assert(slots@.drop_last() =~= before);
                    lemma_slots_new(before, slots@, cs, i as int);
                }
            } else {
                proof {
                    let rep = before[k as int];
                    assert(cs[rep.first as int] == self.consumed@[rep.first as int]@);
                    assert(slot_tracks(rep, cs, i as int));
                    lemma_first_id_slot(some, cs[rep.first as int], c@);
                }
                let known: Option<u64> = match slots[k].ids.get(&c.offset) {
                    Some(id) => Some(*id),
                    None => None,
                };
                match known {
                    Some(id) => {
                        assert(first_id(some, c@) == Some(id));
                        if id != c.id {
                            let text: String = divergence_message(c, id);
                            let ghost t = text@;
                            out.push(text);
                            assert(texts(out@) =~= said.push(t));
                        }
                        proof {
                            lemma_slots_same(before, cs, i as int, k as int);
                        }
                    },
                    None => {
                        assert(first_id(some, c@) is None);
                        let slot: &mut Slot = &mut slots[k];
                        slot.ids.insert(c.offset, c.id);
                        proof {
                            lemma_slots_add(before, slots@, cs, i as int, k as int);
                        }
                    },
                }
            }
            i = i + 1;
        }
        assert(cs.take(i as int) =~= cs);
        out
    }

    pub fn verify(&self) -> (r: Report)
        ensures
            reports(self@, r),
            r.offset_gaps@.len() == 0,
    {
        broadcast use group_hash_axioms;

        let seen: HashSet<u64> = self.consumed_ids();
        let missing_ids: Vec<u64> = self.missing(&seen);
        proof {
            self@.consumed.map_values(|c: Consumed| c.id).lemma_cardinality_of_set();
        }
        Report {
            produced_acked: self.produced.len(),
            consumed_total: self.consumed.len(),
            distinct_consumed: seen.len(),
            missing_ids,
            duplicate_deliveries: self.consumed.len() - seen.len(),
            monotonicity_violations: self.rewinds(),
            divergent_offsets: self.divergences(),
            offset_gaps: Vec::new(),
        }
    }
}

proof fn lemma_take_set(ids: Seq<u64>, i: int)
    requires
        0 <= i < ids.len(),
    ensures
        ids.take(i + 1).to_set() == ids.take(i).to_set().insert(ids[i]),
{
    let a = ids.take(i + 1);
    let b = ids.take(i);
    assert forall|x: u64| a.to_set().contains(x) <==> b.to_set().insert(ids[i]).contains(x) by {
        lemma_push_contains(b, ids[i], x);
        assert(a =~= b.push(ids[i]));
    }
    assert(a.to_set() =~= b.to_set().insert(ids[i]));
}

proof fn lemma_push_contains(s: Seq<u64>, a: u64, x: u64)
    ensures
        s.push(a).contains(x) <==> s.contains(x) || x == a,
{
    if s.contains(x) {
        let k = choose|k: int| 0 <= k < s.len() && s[k] == x;
        assert(s.push(a)[k] == x);
    }
    if x == a {
        assert(s.push(a)[s.len() as int] == x);
    }
}

/// Every stream of the first `n` records is tracked once, with its last offset.
spec fn streams_track(ss: Seq<Stream>, cs: Seq<Consumed>, n: int) -> bool {
    &&& 0 <= n <= cs.len()
    &&& forall|j: int|
        0 <= j < ss.len() ==> (#[trigger] ss[j]).first < n && last_offset(
            cs.take(n),
            cs[ss[j].first as int],
        ) == Some(ss[j].last)
    &&& forall|j: int, k: int|
        0 <= j < k < ss.len() ==> !same_stream(
            cs[(#[trigger] ss[j]).first as int],
            cs[(#[trigger] ss[k]).first as int],
        )
    &&& forall|m: int| 0 <= m < n ==> #[trigger] stream_known(ss, cs, m)
}

/// One of the tracked streams is that of record `m`.
spec fn stream_known(ss: Seq<Stream>, cs: Seq<Consumed>, m: int) -> bool {
    exists|j: int| 0 <= j < ss.len() && same_stream(cs[(#[trigger] ss[j]).first as int], cs[m])
}

proof fn lemma_same_stream_offset(cs: Seq<Consumed>, a: Consumed, b: Consumed)
    requires
        same_stream(a, b),
    ensures
        last_offset(cs, a) == last_offset(cs, b),
    decreases cs.len(),
{
    if cs.len() > 0 {
        lemma_same_stream_offset(cs.drop_last(), a, b);
    }
}

proof fn lemma_last_offset_none(cs: Seq<Consumed>, c: Consumed)
    requires
        forall|m: int| 0 <= m < cs.len() ==> !same_stream(#[trigger] cs[m], c),
    ensures
        last_offset(cs, c) is None,
    decreases cs.len(),
{
    if cs.len() > 0 {
        assert(cs.last() == cs[cs.len() - 1]);
        let head = cs.drop_last();
        assert forall|m: int| 0 <= m < head.len() implies !same_stream(#[trigger] head[m], c) by {
            assert(head[m] == cs[m]);
        }
        lemma_last_offset_none(head, c);
    }
}

proof fn lemma_unseen_stream(ss: Seq<Stream>, cs: Seq<Consumed>, n: int, c: Consumed)
    requires
        streams_track(ss, cs, n),
        forall|j: int| 0 <= j < ss.len() ==> !same_stream(cs[(#[trigger] ss[j]).first as int], c),
    ensures
        last_offset(cs.take(n), c) is None,
{
    let some = cs.take(n);
    assert forall|m: int| 0 <= m < some.len() implies !same_stream(#[trigger] some[m], c) by {
        assert(some[m] == cs[m]);
        assert(stream_known(ss, cs, m));
        let j = choose|j: int|
            0 <= j < ss.len() && same_stream(cs[(#[trigger] ss[j]).first as int], cs[m]);
        assert(!same_stream(cs[ss[j].first as int], c));
    }
    lemma_last_offset_none(some, c);
}

proof fn lemma_streams_step(
    before: Seq<Stream>,
    after: Seq<Stream>,
    cs: Seq<Consumed>,
    n: int,
    k: int,
)
    requires
        streams_track(before, cs, n),
        n < cs.len(),
        0 <= k <= before.len(),
        k < before.len() ==> same_stream(cs[before[k].first as int], cs[n]) && after
            == before.update(k, Stream { first: before[k].first, last: cs[n].offset }),
        k == before.len() ==> after == before.push(
            Stream { first: n as usize, last: cs[n].offset },
        ),
        forall|j: int|
            0 <= j < k ==> !same_stream(cs[(#[trigger] before[j]).first as int], cs[n]),
        n <= usize::MAX,
    ensures
        streams_track(after, cs, n + 1),
{
    let some = cs.take(n);
    let more = cs.take(n + 1);
    assert(more.drop_last() =~= some);
    assert(more.last() == cs[n]);
    assert forall|j: int| 0 <= j < after.len() implies (#[trigger] after[j]).first < n + 1
        && last_offset(more, cs[after[j].first as int]) == Some(after[j].last) by {
        if j < before.len() {
            assert(before[j].first < n);
            if j != k {
                assert(after[j] == before[j]);
                if same_stream(cs[n], cs[before[j].first as int]) {
                    if k < before.len() {
                        if j < k {
                            assert(!same_stream(
                                cs[before[j].first as int],
                                cs[before[k].first as int],
                            ));
                        } else {
                            assert(!same_stream(
                                cs[before[k].first as int],
                                cs[before[j].first as int],
                            ));
                        }
                    }
                    assert(false);
                }
            }
        }
    }
    assert forall|j: int, m: int| 0 <= j < m < after.len() implies !same_stream(
        cs[(#[trigger] after[j]).first as int],
        cs[(#[trigger] after[m]).first as int],
    ) by {
        assert(after[j].first == before[j].first);
        if m < before.len() {
            assert(after[m].first == before[m].first);
            assert(!same_stream(cs[before[j].first as int], cs[before[m].first as int]));
        }
    }
    assert forall|m: int| 0 <= m < n + 1 implies #[trigger] stream_known(after, cs, m) by {
        if m < n {
            assert(stream_known(before, cs, m));
            let j = choose|j: int|
                0 <= j < before.len() && same_stream(
                    cs[(#[trigger] before[j]).first as int],
                    cs[m],
                );
            assert(after[j].first == before[j].first);
        } else {
            assert(same_stream(cs[after[k].first as int], cs[n]));
        }
    }
}

/// A slot knows the first id at every offset of its partition.
spec fn slot_tracks(s: Slot, cs: Seq<Consumed>, n: int) -> bool {
    &&& s.first < n
    &&& forall|o: u64|
        (#[trigger] s.ids@.contains_key(o)) <==> first_id(
            cs.take(n),
            at_offset(cs[s.first as int], o),
        ) is Some
    &&& forall|o: u64|
        s.ids@.contains_key(o) ==> first_id(cs.take(n), at_offset(cs[s.first as int], o)) == Some(
            #[trigger] s.ids@[o],
        )
}

/// A record at another offset.
spec fn at_offset(c: Consumed, offset: u64) -> Consumed {
    Consumed { offset, ..c }
}

/// Every partition of the first `n` records is tracked once.
spec fn slots_track(ss: Seq<Slot>, cs: Seq<Consumed>, n: int) -> bool {
    &&& 0 <= n <= cs.len()
    &&& forall|j: int| 0 <= j < ss.len() ==> slot_tracks(#[trigger] ss[j], cs, n)
    &&& forall|j: int, k: int|
        0 <= j < k < ss.len() ==> !same_slot(
            cs[(#[trigger] ss[j]).first as int],
            cs[(#[trigger] ss[k]).first as int],
        )
    &&& forall|m: int| 0 <= m < n ==> #[trigger] slot_known(ss, cs, m)
}

/// One of the tracked slots is that of record `m`.
spec fn slot_known(ss: Seq<Slot>, cs: Seq<Consumed>, m: int) -> bool {
    exists|j: int| 0 <= j < ss.len() && same_slot(cs[(#[trigger] ss[j]).first as int], cs[m])
}

proof fn lemma_first_id_slot(cs: Seq<Consumed>, a: Consumed, b: Consumed)
    requires
        same_slot(a, b),
    ensures
        first_id(cs, at_offset(a, b.offset)) == first_id(cs, b),
    decreases cs.len(),
{
    if cs.len() > 0 {
        lemma_first_id_slot(cs.drop_last(), a, b);
    }
}

proof fn lemma_first_id_none(cs: Seq<Consumed>, c: Consumed)
    requires
        forall|m: int| 0 <= m < cs.len() ==> !same_slot(#[trigger] cs[m], c),
    ensures
        first_id(cs, c) is None,
    decreases cs.len(),
{
    if cs.len() > 0 {
        assert(cs.last() == cs[cs.len() - 1]);
        let head = cs.drop_last();
        assert forall|m: int| 0 <= m < head.len() implies !same_slot(#[trigger] head[m], c) by {
            assert(head[m] == cs[m]);
        }
        lemma_first_id_none(head, c);
    }
}

proof fn lemma_unseen_slot(ss: Seq<Slot>, cs: Seq<Consumed>, n: int, c: Consumed)
    requires
        slots_track(ss, cs, n),
        forall|j: int| 0 <= j < ss.len() ==> !same_slot(cs[(#[trigger] ss[j]).first as int], c),
    ensures
        forall|o: u64| first_id(cs.take(n), #[trigger] at_offset(c, o)) is None,
        first_id(cs.take(n), c) is None,
        forall|m: int| 0 <= m < n ==> !same_slot(#[trigger] cs[m], c),
{
    let some = cs.take(n);
    assert forall|m: int| 0 <= m < n implies !same_slot(#[trigger] cs[m], c) by {
        assert(slot_known(ss, cs, m));
        let j = choose|j: int|
            0 <= j < ss.len() && same_slot(cs[(#[trigger] ss[j]).first as int], cs[m]);
        assert(!same_slot(cs[ss[j].first as int], c));
    }
    assert forall|o: u64| first_id(some, #[trigger] at_offset(c, o)) is None by {
        assert forall|m: int| 0 <= m < some.len() implies !same_slot(
            #[trigger] some[m],
            at_offset(c, o),
        ) by {
            assert(some[m] == cs[m]);
        }
        lemma_first_id_none(some, at_offset(c, o));
    }
    assert(at_offset(c, c.offset) == c);
}

/// What one record more does to the first id at a place.
proof fn lemma_first_id_step(cs: Seq<Consumed>, n: int, c: Consumed)
    requires
        0 <= n < cs.len(),
    ensures
        first_id(cs.take(n + 1), c) == (match first_id(cs.take(n), c) {
            Some(id) => Some(id),
            None => if same_slot(cs[n], c) && cs[n].offset == c.offset {
                Some(cs[n].id)
            } else {
                None
            },
        }),
{
    assert(cs.take(n + 1).drop_last() =~= cs.take(n));
    assert(cs.take(n + 1).last() == cs[n]);
}

/// A slot of another partition, or one that knows the place, stays right.
proof fn lemma_slot_stays(s: Slot, cs: Seq<Consumed>, n: int)
    requires
        slot_tracks(s, cs, n),
        n < cs.len(),
        same_slot(cs[n], cs[s.first as int]) ==> s.ids@.contains_key(cs[n].offset),
    ensures
        slot_tracks(s, cs, n + 1),
{
    let rep = cs[s.first as int];
    assert forall|o: u64| first_id(cs.take(n + 1), #[trigger] at_offset(rep, o)) == first_id(
        cs.take(n),
        at_offset(rep, o),
    ) by {
        lemma_first_id_step(cs, n, at_offset(rep, o));
        assert(s.ids@.contains_key(o) <==> first_id(cs.take(n), at_offset(rep, o)) is Some);
    }
}

proof fn lemma_slots_same(before: Seq<Slot>, cs: Seq<Consumed>, n: int, k: int)
    requires
        slots_track(before, cs, n),
        n < cs.len(),
        0 <= k < before.len(),
        same_slot(cs[before[k].first as int], cs[n]),
        before[k].ids@.contains_key(cs[n].offset),
    ensures
        slots_track(before, cs, n + 1),
{
    assert forall|j: int| 0 <= j < before.len() implies slot_tracks(
        #[trigger] before[j],
        cs,
        n + 1,
    ) by {
        assert(slot_tracks(before[j], cs, n));
        if j < k {
            assert(!same_slot(cs[before[j].first as int], cs[before[k].first as int]));
        } else if j > k {
            assert(!same_slot(cs[before[k].first as int], cs[before[j].first as int]));
        }
        lemma_slot_stays(before[j], cs, n);
    }
    assert forall|m: int| 0 <= m < n + 1 implies #[trigger] slot_known(before, cs, m) by {
        if m == n {
            assert(same_slot(cs[before[k].first as int], cs[n]));
        }
    }
}

proof fn lemma_slots_new(before: Seq<Slot>, after: Seq<Slot>, cs: Seq<Consumed>, n: int)
    requires
        slots_track(before, cs, n),
        n < cs.len(),
        n <= usize::MAX,
        forall|j: int|
            0 <= j < before.len() ==> !same_slot(cs[(#[trigger] before[j]).first as int], cs[n]),
        forall|o: u64| first_id(cs.take(n), #[trigger] at_offset(cs[n], o)) is None,
        after.len() == before.len() + 1,
        after.drop_last() == before,
        after.last().first == n,
        after.last().ids@ == Map::<u64, u64>::empty().insert(cs[n].offset, cs[n].id),
    ensures
        slots_track(after, cs, n + 1),
{
    let last = after[before.len() as int];
    assert(forall|j: int| 0 <= j < before.len() ==> after[j] == after.drop_last()[j]);
    assert forall|j: int| 0 <= j < after.len() implies slot_tracks(
        #[trigger] after[j],
        cs,
        n + 1,
    ) by {
        if j < before.len() {
            assert(after[j] == before[j]);
            assert(slot_tracks(before[j], cs, n));
            lemma_slot_stays(before[j], cs, n);
        } else {
            assert forall|o: u64|
                first_id(cs.take(n + 1), #[trigger] at_offset(cs[n], o)) == (if o
                    == cs[n].offset {
                    Some(cs[n].id)
                } else {
                    None
                }) by {
                lemma_first_id_step(cs, n, at_offset(cs[n], o));
            }
        }
    }
    assert forall|j: int, k: int| 0 <= j < k < after.len() implies !same_slot(
        cs[(#[trigger] after[j]).first as int],
        cs[(#[trigger] after[k]).first as int],
    ) by {
        assert(after[j] == before[j]);
        if k < before.len() {
            assert(after[k] == before[k]);
        }
    }
    assert forall|m: int| 0 <= m < n + 1 implies #[trigger] slot_known(after, cs, m) by {
        if m < n {
            assert(slot_known(before, cs, m));
            let j = choose|j: int|
                0 <= j < before.len() && same_slot(
                    cs[(#[trigger] before[j]).first as int],
                    cs[m],
                );
            assert(after[j] == before[j]);
        } else {
            assert(same_slot(cs[last.first as int], cs[n]));
        }
    }
}

proof fn lemma_slots_add(before: Seq<Slot>, after: Seq<Slot>, cs: Seq<Consumed>, n: int, k: int)
    requires
        slots_track(before, cs, n),
        n < cs.len(),
        0 <= k < before.len(),
        same_slot(cs[before[k].first as int], cs[n]),
        first_id(cs.take(n), cs[n]) is None,
        after.len() == before.len(),
        forall|j: int| 0 <= j < before.len() && j != k ==> after[j] == before[j],
        after[k].first == before[k].first,
        after[k].ids@ == before[k].ids@.insert(cs[n].offset, cs[n].id),
    ensures
        slots_track(after, cs, n + 1),
{
    let rep = cs[before[k].first as int];
    assert(slot_tracks(before[k], cs, n));
    assert forall|j: int| 0 <= j < after.len() implies slot_tracks(
        #[trigger] after[j],
        cs,
        n + 1,
    ) by {
        if j != k {
            assert(after[j] == before[j]);
            assert(slot_tracks(before[j], cs, n));
            if j < k {
                assert(!same_slot(cs[before[j].first as int], cs[before[k].first as int]));
            } else {
                assert(!same_slot(cs[before[k].first as int], cs[before[j].first as int]));
            }
            lemma_slot_stays(before[j], cs, n);
        } else {
            assert forall|o: u64|
                first_id(cs.take(n + 1), #[trigger] at_offset(rep, o)) == (if o == cs[n].offset {
                    Some(cs[n].id)
                } else {
                    first_id(cs.take(n), at_offset(rep, o))
                }) by {
                lemma_first_id_step(cs, n, at_offset(rep, o));
                if o == cs[n].offset {
                    lemma_first_id_slot(cs.take(n), rep, cs[n]);
                }
            }
            assert forall|o: u64| (#[trigger] after[k].ids@.contains_key(o)) <==> first_id(
                cs.take(n + 1),
                at_offset(rep, o),
            ) is Some by {
                assert(before[k].ids@.contains_key(o) <==> first_id(
                    cs.take(n),
                    at_offset(rep, o),
                ) is Some);
            }
        }
    }
    assert forall|j: int, m: int| 0 <= j < m < after.len() implies !same_slot(
        cs[(#[trigger] after[j]).first as int],
        cs[(#[trigger] after[m]).first as int],
    ) by {
        assert(after[j].first == before[j].first);
        assert(after[m].first == before[m].first);
    }
    assert forall|m: int| 0 <= m < n + 1 implies #[trigger] slot_known(after, cs, m) by {
        if m < n {
            assert(slot_known(before, cs, m));
            let j = choose|j: int|
                0 <= j < before.len() && same_slot(
                    cs[(#[trigger] before[j]).first as int],
                    cs[m],
                );
            assert(after[j].first == before[j].first);
        } else {
            assert(same_slot(cs[after[k].first as int], cs[n]));
        }
    }
}

} // verus!
