//! Offsets that nobody consumed.

use super::{reports, same_slot, Consumed, ConsumedRecord, History, Report};
use crate::order::{ascending_texts, sort_texts, texts};
use crate::text::{decimal, push_decimal};
use std::collections::HashSet;
use vstd::prelude::*;
use vstd::std_specs::hash::*;
use vstd::string::*;

verus! {

/// The offsets of the partition of `c` that were consumed.
pub open spec fn offsets_of(cs: Seq<Consumed>, c: Consumed) -> Set<u64>
    decreases cs.len(),
{
    if cs.len() == 0 {
        Set::empty()
    } else if same_slot(cs.last(), c) {
        offsets_of(cs.drop_last(), c).insert(cs.last().offset)
    } else {
        offsets_of(cs.drop_last(), c)
    }
}

/// The first record of each partition, in the order in which they were seen.
pub open spec fn slots_of(cs: Seq<Consumed>) -> Seq<Consumed>
    decreases cs.len(),
{
    if cs.len() == 0 {
        Seq::empty()
    } else {
        let before = slots_of(cs.drop_last());
        if exists|j: int| 0 <= j < before.len() && same_slot(#[trigger] before[j], cs.last()) {
            before
        } else {
            before.push(cs.last())
        }
    }
}

/// `m` is the largest of `s`.
pub open spec fn is_max(s: Set<u64>, m: u64) -> bool {
    s.contains(m) && forall|o: u64| #[trigger] s.contains(o) ==> o <= m
}

/// The largest of `s`.
pub open spec fn max_of(s: Set<u64>) -> u64 {
    choose|m: u64| is_max(s, m)
}

/// `h` is the least that is not in `s`.
pub open spec fn is_hole(s: Set<u64>, h: u64) -> bool {
    !s.contains(h) && forall|o: u64| o < h ==> #[trigger] s.contains(o)
}

/// The least that is not in `s`.
pub open spec fn first_hole(s: Set<u64>) -> u64 {
    choose|h: u64| is_hole(s, h)
}

/// Fewer offsets were consumed than lie between 0 and the largest.
pub open spec fn has_gap(s: Set<u64>) -> bool {
    s.len() != max_of(s) + 1
}

pub open spec fn gap_text(c: Consumed, s: Set<u64>) -> Seq<char> {
    c.topic + "-"@ + decimal(c.partition as nat) + ": "@ + decimal(s.len()) + " of "@ + decimal(
        (max_of(s) + 1) as nat,
    ) + " offsets consumed, first hole at "@ + decimal(first_hole(s) as nat)
}

/// One text for each of `slots` with a gap.
pub open spec fn gap_texts(slots: Seq<Consumed>, cs: Seq<Consumed>) -> Seq<Seq<char>>
    decreases slots.len(),
{
    if slots.len() == 0 {
        Seq::empty()
    } else {
        let before = gap_texts(slots.drop_last(), cs);
        let s = offsets_of(cs, slots.last());
        if has_gap(s) {
            before.push(gap_text(slots.last(), s))
        } else {
            before
        }
    }
}

/// The gaps of all partitions.
pub open spec fn gaps(cs: Seq<Consumed>) -> Seq<Seq<char>> {
    gap_texts(slots_of(cs), cs)
}

/// A partition: where it was seen first, its offsets, and the largest of them.
struct Seen {
    first: usize,
    offsets: HashSet<u64>,
    max: u64,
}

spec fn seen_right(s: Seen, cs: Seq<Consumed>, n: int) -> bool {
    &&& s.first < n
    &&& s.offsets@ == offsets_of(cs.take(n), cs[s.first as int])
    &&& is_max(s.offsets@, s.max)
}

/// The partitions of the first `n` records, each with its offsets.
spec fn seen_all(ss: Seq<Seen>, cs: Seq<Consumed>, n: int) -> bool {
    &&& 0 <= n <= cs.len()
    &&& ss.len() == slots_of(cs.take(n)).len()
    &&& forall|j: int|
        0 <= j < ss.len() ==> seen_right(#[trigger] ss[j], cs, n) && cs[ss[j].first as int]
            == slots_of(cs.take(n))[j]
}

proof fn lemma_step(cs: Seq<Consumed>, n: int)
    requires
        0 <= n < cs.len(),
    ensures
        cs.take(n + 1).drop_last() == cs.take(n),
        cs.take(n + 1).last() == cs[n],
{
    assert(cs.take(n + 1).drop_last() =~= cs.take(n));
}

/// Different slots are different partitions, and every record has its slot.
proof fn lemma_slots(cs: Seq<Consumed>)
    ensures
        ({
            let ss = slots_of(cs);
            &&& forall|j: int, k: int|
                0 <= j < k < ss.len() ==> !same_slot(#[trigger] ss[j], #[trigger] ss[k])
            &&& forall|m: int|
                0 <= m < cs.len() ==> exists|j: int|
                    0 <= j < ss.len() && same_slot(#[trigger] ss[j], #[trigger] cs[m])
        }),
    decreases cs.len(),
{
    if cs.len() > 0 {
        let head = cs.drop_last();
        lemma_slots(head);
        let before = slots_of(head);
        let ss = slots_of(cs);
        assert forall|m: int| 0 <= m < cs.len() implies exists|j: int|
            0 <= j < ss.len() && same_slot(#[trigger] ss[j], #[trigger] cs[m]) by {
            if m < head.len() {
                assert(head[m] == cs[m]);
                let j = choose|j: int| 0 <= j < before.len() && same_slot(before[j], head[m]);
                assert(ss[j] == before[j]);
            } else if ss.len() > before.len() {
                assert(same_slot(ss[before.len() as int], cs[m]));
            }
        }
    }
}

proof fn lemma_no_offsets(cs: Seq<Consumed>, c: Consumed)
    requires
        forall|j: int| 0 <= j < slots_of(cs).len() ==> !same_slot(#[trigger] slots_of(cs)[j], c),
    ensures
        offsets_of(cs, c) == Set::<u64>::empty(),
{
    lemma_slots(cs);
    assert forall|m: int| 0 <= m < cs.len() implies !same_slot(#[trigger] cs[m], c) by {
        let j = choose|j: int|
            0 <= j < slots_of(cs).len() && same_slot(slots_of(cs)[j], cs[m]);
        assert(!same_slot(slots_of(cs)[j], c));
    }
    lemma_none_of(cs, c);
}

proof fn lemma_none_of(cs: Seq<Consumed>, c: Consumed)
    requires
        forall|m: int| 0 <= m < cs.len() ==> !same_slot(#[trigger] cs[m], c),
    ensures
        offsets_of(cs, c) == Set::<u64>::empty(),
    decreases cs.len(),
{
    if cs.len() > 0 {
        let head = cs.drop_last();
        assert(cs.last() == cs[cs.len() - 1]);
        assert forall|m: int| 0 <= m < head.len() implies !same_slot(#[trigger] head[m], c) by {
            assert(head[m] == cs[m]);
        }
        lemma_none_of(head, c);
    }
}

proof fn lemma_same_offsets(cs: Seq<Consumed>, a: Consumed, b: Consumed)
    requires
        same_slot(a, b),
    ensures
        offsets_of(cs, a) == offsets_of(cs, b),
    decreases cs.len(),
{
    if cs.len() > 0 {
        lemma_same_offsets(cs.drop_last(), a, b);
    }
}

/// Every number up to `m` and no other: there are `m + 1` of them.
proof fn lemma_full(s: Set<u64>, m: u64)
    requires
        s.finite(),
        forall|o: u64| s.contains(o) <==> o <= m,
    ensures
        s.len() == m + 1,
    decreases m,
{
    let t = s.remove(m);
    if m == 0 {
        assert(t =~= Set::empty());
    } else {
        assert forall|o: u64| t.contains(o) <==> o <= m - 1 by {}
        lemma_full(t, (m - 1) as u64);
    }
}

proof fn lemma_max(s: Set<u64>, m: u64)
    requires
        is_max(s, m),
    ensures
        max_of(s) == m,
{
    let k = max_of(s);
    assert(is_max(s, k));
    assert(s.contains(k) && s.contains(m));
}

proof fn lemma_hole(s: Set<u64>, h: u64)
    requires
        is_hole(s, h),
    ensures
        first_hole(s) == h,
{
    let k = first_hole(s);
    assert(is_hole(s, k));
    if k < h {
        assert(s.contains(k));
    }
    if h < k {
        assert(s.contains(h));
    }
}

fn gap_message(c: &ConsumedRecord, count: u64, span: u64, hole: u64) -> (text: String)
    ensures
        text@ == c.topic@ + "-"@ + decimal(c.partition as nat) + ": "@ + decimal(count as nat)
            + " of "@ + decimal(span as nat) + " offsets consumed, first hole at "@ + decimal(
            hole as nat,
        ),
{
    let mut text: String = c.topic.clone();
    text.append("-");
    push_decimal(&mut text, c.partition as u64);
    text.append(": ");
    push_decimal(&mut text, count);
    text.append(" of ");
    push_decimal(&mut text, span);
    text.append(" offsets consumed, first hole at ");
    push_decimal(&mut text, hole);
    text
}

/// The least number that is not in `s`, whose largest is `max`.
fn find_hole(s: &HashSet<u64>, max: u64) -> (h: u64)
    requires
        s@.finite(),
        is_max(s@, max),
        max < u64::MAX,
        has_gap(s@),
    ensures
        h == first_hole(s@),
{
    broadcast use group_hash_axioms;

    let mut h: u64 = 0;
    proof {
        lemma_max(s@, max);
    }
    while s.contains(&h)
        invariant
            s@.finite(),
            is_max(s@, max),
            max < u64::MAX,
            s@.len() != max + 1,
            h <= max + 1,
            forall|o: u64| o < h ==> #[trigger] s@.contains(o),
        decreases max + 1 - h,
    {
        broadcast use group_hash_axioms;

        proof {
            if h == max {
                assert forall|o: u64| s@.contains(o) <==> o <= max by {}
                lemma_full(s@, max);
            }
        }
        h = h + 1;
    }
    proof {
        lemma_hole(s@, h);
    }
    h
}

impl History {
    fn seen(&self) -> (r: Vec<Seen>)
        ensures
            seen_all(r@, self@.consumed, self@.consumed.len() as int),
    {
        broadcast use group_hash_axioms;

        let mut slots: Vec<Seen> = Vec::new();
        let ghost cs = self@.consumed;
        let mut i: usize = 0;
        assert(cs.take(0) =~= Seq::empty());
        while i < self.consumed.len()
            invariant
                i <= self.consumed@.len(),
                cs == self@.consumed,
                seen_all(slots@, cs, i as int),
            decreases self.consumed@.len() - i,
        {
            let c: &ConsumedRecord = &self.consumed[i];
            let ghost some = cs.take(i as int);
            let ghost more = cs.take(i + 1);
            let ghost before = slots@;
            proof {
                lemma_step(cs, i as int);
                lemma_slots(some);
                assert(cs[i as int] == c@);
            }
            let mut k: usize = 0;
            while k < slots.len() && !super::slot_matches(&self.consumed[slots[k].first], c)
                invariant
                    k <= slots@.len(),
                    cs == self@.consumed,
                    i < self.consumed@.len(),
                    seen_all(slots@, cs, i as int),
                    c == self.consumed@[i as int],
                    forall|j: int|
                        0 <= j < k ==> !same_slot(#[trigger] slots_of(cs.take(i as int))[j], c@),
                decreases slots@.len() - k,
            {
                assert(seen_right(slots@[k as int], cs, i as int));
                assert(cs[slots@[k as int].first as int] == self.consumed@[
                    slots@[k as int].first as int
                ]@);
                k = k + 1;
            }
            if k == slots.len() {
                let mut offsets: HashSet<u64> = HashSet::new();
                offsets.insert(c.offset);
                proof {
                    lemma_no_offsets(some, c@);
                    assert(slots_of(more) == slots_of(some).push(c@));
                    assert(offsets@ =~= offsets_of(more, c@));
                }
                slots.push(Seen { first: i, offsets, max: c.offset });
                proof {
                    assert forall|j: int| 0 <= j < slots@.len() implies seen_right(
                        #[trigger] slots@[j],
                        cs,
                        i + 1,
                    ) && cs[slots@[j].first as int] == slots_of(more)[j] by {
                        if j < before.len() {
                            assert(slots@[j] == before[j]);
                            assert(seen_right(before[j], cs, i as int));
                            assert(!same_slot(slots_of(some)[j], c@));
                        }
                    }
                }
            } else {
                let ghost rep = slots_of(some)[k as int];
                proof {
                    assert(seen_right(before[k as int], cs, i as int));
                    assert(cs[before[k as int].first as int] == self.consumed@[
                        before[k as int].first as int
                    ]@);
                    assert(same_slot(rep, c@));
                }
                let slot: &mut Seen = &mut slots[k];
                slot.offsets.insert(c.offset);
                if c.offset > slot.max {
                    slot.max = c.offset;
                }
                proof {
                    assert(slots_of(more) == slots_of(some));
                    assert forall|j: int| 0 <= j < slots@.len() implies seen_right(
                        #[trigger] slots@[j],
                        cs,
                        i + 1,
                    ) && cs[slots@[j].first as int] == slots_of(more)[j] by {
                        assert(seen_right(before[j], cs, i as int));
                        if j != k {
                            assert(slots@[j] == before[j]);
                            if j < k {
                                assert(!same_slot(slots_of(some)[j], rep));
                            } else {
                                assert(!same_slot(rep, slots_of(some)[j]));
                            }
                        }
                    }
                }
            }
            i = i + 1;
        }
        assert(cs.take(i as int) =~= cs);
        slots
    }

    /// Whether every offset has a next one, as counting offsets from the start
    /// needs.
    pub fn is_countable(&self) -> (r: bool)
        ensures
            r == forall|i: int|
                0 <= i < self@.consumed.len() ==> (#[trigger] self@.consumed[i]).offset < u64::MAX,
    {
        let ghost cs = self@.consumed;
        let mut i: usize = 0;
        while i < self.consumed.len()
            invariant
                i <= self.consumed@.len(),
                cs == self@.consumed,
                forall|j: int| 0 <= j < i ==> (#[trigger] cs[j]).offset < u64::MAX,
            decreases self.consumed@.len() - i,
        {
            assert(cs[i as int] == self.consumed@[i as int]@);
            if self.consumed[i].offset == u64::MAX {
                return false;
            }
            i += 1;
        }
        true
    }

    /// `verify` plus the gap-free check: readers are asserted to have
    /// consumed each partition from offset 0, so every offset in
    /// `0..=max_consumed` must have been consumed by someone — a hole means
    /// the log served non-contiguous history.
    pub fn verify_from_start(&self) -> (r: Report)
        requires
            forall|i: int|
                0 <= i < self@.consumed.len() ==> (#[trigger] self@.consumed[i]).offset < u64::MAX,
        ensures
            reports(self@, r),
            ascending_texts(texts(r.offset_gaps@)),
            texts(r.offset_gaps@).to_multiset() == gaps(self@.consumed).to_multiset(),
    {
        broadcast use group_hash_axioms;

        let mut report: Report = self.verify();
        let ghost cs = self@.consumed;
        let slots: Vec<Seen> = self.seen();
        let ghost reps = slots_of(cs);
        let mut found: Vec<String> = Vec::new();
        let mut k: usize = 0;
        assert(cs.take(cs.len() as int) =~= cs);
        assert(reps.take(0) =~= Seq::empty());
        assert(texts(found@) =~= Seq::empty());
        while k < slots.len()
            invariant
                k <= slots@.len(),
                cs == self@.consumed,
                reps == slots_of(cs),
                cs.take(cs.len() as int) == cs,
                seen_all(slots@, cs, cs.len() as int),
                forall|i: int| 0 <= i < cs.len() ==> (#[trigger] cs[i]).offset < u64::MAX,
                texts(found@) == gap_texts(reps.take(k as int), cs),
            decreases slots@.len() - k,
        {
            let slot: &Seen = &slots[k];
            proof {
                assert(seen_right(slots@[k as int], cs, cs.len() as int));
                assert(reps.take(k + 1).drop_last() =~= reps.take(k as int));
                assert(reps.take(k + 1).last() == reps[k as int]);
                lemma_max(slot.offsets@, slot.max);
                lemma_offset_bound(cs, reps[k as int], slot.max);
                lemma_offsets_finite(cs, reps[k as int]);
            }
            let ghost said = texts(found@);
            let c: &ConsumedRecord = &self.consumed[slot.first];
            assert(c@ == reps[k as int]);
            if slot.offsets.len() as u64 != slot.max + 1 {
                let hole: u64 = find_hole(&slot.offsets, slot.max);
                let text: String = gap_message(
                    c,
                    slot.offsets.len() as u64,
                    slot.max + 1,
                    hole,
                );
                let ghost t = text@;
                assert(t == gap_text(reps[k as int], slot.offsets@));
                found.push(text);
                assert(texts(found@) =~= said.push(t));
            }
            k = k + 1;
        }
        assert(reps.take(k as int) =~= reps);
        report.offset_gaps = sort_texts(found);
        report
    }
}

proof fn lemma_offsets_finite(cs: Seq<Consumed>, c: Consumed)
    ensures
        offsets_of(cs, c).finite(),
    decreases cs.len(),
{
    if cs.len() > 0 {
        lemma_offsets_finite(cs.drop_last(), c);
    }
}

proof fn lemma_offset_bound(cs: Seq<Consumed>, c: Consumed, o: u64)
    requires
        forall|i: int| 0 <= i < cs.len() ==> (#[trigger] cs[i]).offset < u64::MAX,
        offsets_of(cs, c).contains(o),
    ensures
        o < u64::MAX,
    decreases cs.len(),
{
    if cs.len() > 0 {
        let head = cs.drop_last();
        assert(cs.last() == cs[cs.len() - 1]);
        if offsets_of(head, c).contains(o) {
            assert forall|i: int| 0 <= i < head.len() implies (#[trigger] head[i]).offset
                < u64::MAX by {
                assert(head[i] == cs[i]);
            }
            lemma_offset_bound(head, c, o);
        }
    }
}

} // verus!
