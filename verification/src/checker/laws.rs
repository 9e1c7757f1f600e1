//! What a clean report means.

use super::gaps::{gap_texts, gaps, has_gap, is_max, max_of, offsets_of, slots_of};
use super::summary::delivery_text;
use super::{
    consumed_set, divergences, first_id, last_offset, produced_set, reports, rewinds, same_slot,
    same_stream, Consumed, Events, Report,
};
use vstd::prelude::*;
use vstd::set_lib::*;

verus! {

/// Within each stream, offsets strictly rise.
pub open spec fn streams_rise(cs: Seq<Consumed>) -> bool {
    forall|i: int, j: int|
        0 <= i < j < cs.len() && same_stream(#[trigger] cs[i], #[trigger] cs[j]) ==> cs[i].offset
            < cs[j].offset
}

/// At each place of a partition, everybody saw the same id.
pub open spec fn one_truth(cs: Seq<Consumed>) -> bool {
    forall|i: int, j: int|
        0 <= i < cs.len() && 0 <= j < cs.len() && same_slot(#[trigger] cs[i], #[trigger] cs[j])
            && cs[i].offset == cs[j].offset ==> cs[i].id == cs[j].id
}

proof fn lemma_last_is_largest(cs: Seq<Consumed>, c: Consumed)
    requires
        streams_rise(cs),
    ensures
        match last_offset(cs, c) {
            Some(o) => (forall|i: int|
                0 <= i < cs.len() && same_stream(#[trigger] cs[i], c) ==> cs[i].offset <= o) && (
            exists|i: int|
                0 <= i < cs.len() && same_stream(#[trigger] cs[i], c) && cs[i].offset == o),
            None => forall|i: int| 0 <= i < cs.len() ==> !same_stream(#[trigger] cs[i], c),
        },
    decreases cs.len(),
{
    if cs.len() > 0 {
        let head = cs.drop_last();
        assert forall|i: int, j: int|
            0 <= i < j < head.len() && same_stream(
                #[trigger] head[i],
                #[trigger] head[j],
            ) implies head[i].offset < head[j].offset by {
            assert(head[i] == cs[i] && head[j] == cs[j]);
        }
        lemma_last_is_largest(head, c);
        let last = cs.len() - 1;
        assert(cs[last] == cs.last());
        if same_stream(cs.last(), c) {
            assert forall|i: int|
                0 <= i < cs.len() && same_stream(
                    #[trigger] cs[i],
                    c,
                ) implies cs[i].offset <= cs.last().offset by {
                if i < last {
                    assert(same_stream(cs[i], cs[last]));
                }
            }
        } else {
            match last_offset(head, c) {
                Some(o) => {
                    let k = choose|k: int|
                        0 <= k < head.len() && same_stream(#[trigger] head[k], c) && head[k].offset
                            == o;
                    assert(cs[k] == head[k]);
                    assert forall|i: int|
                        0 <= i < cs.len() && same_stream(
                            #[trigger] cs[i],
                            c,
                        ) implies cs[i].offset <= o by {
                        assert(i < last);
                        assert(head[i] == cs[i]);
                    }
                },
                None => {
                    assert forall|i: int| 0 <= i < cs.len() implies !same_stream(
                        #[trigger] cs[i],
                        c,
                    ) by {
                        if i < last {
                            assert(head[i] == cs[i]);
                        }
                    }
                },
            }
        }
    }
}

/// No rewind is reported exactly where every stream's offsets strictly rise.
pub proof fn law_rewinds(cs: Seq<Consumed>)
    ensures
        rewinds(cs).len() == 0 <==> streams_rise(cs),
    decreases cs.len(),
{
    if cs.len() > 0 {
        let head = cs.drop_last();
        let c = cs.last();
        let last = cs.len() - 1;
        assert(cs[last] == c);
        law_rewinds(head);
        if streams_rise(cs) {
            assert forall|i: int, j: int|
                0 <= i < j < head.len() && same_stream(
                    #[trigger] head[i],
                    #[trigger] head[j],
                ) implies head[i].offset < head[j].offset by {
                assert(head[i] == cs[i] && head[j] == cs[j]);
            }
            lemma_last_is_largest(head, c);
            if let Some(o) = last_offset(head, c) {
                let k = choose|k: int|
                    0 <= k < head.len() && same_stream(#[trigger] head[k], c) && head[k].offset
                        == o;
                assert(head[k] == cs[k]);
                assert(same_stream(cs[k], cs[last]));
            }
        }
        if rewinds(cs).len() == 0 {
            assert(rewinds(head).len() == 0);
            lemma_last_is_largest(head, c);
            assert forall|i: int, j: int|
                0 <= i < j < cs.len() && same_stream(
                    #[trigger] cs[i],
                    #[trigger] cs[j],
                ) implies cs[i].offset < cs[j].offset by {
                assert(head[i] == cs[i]);
                if j < last {
                    assert(head[j] == cs[j]);
                } else {
                    assert(same_stream(head[i], c));
                }
            }
        }
    }
}

proof fn lemma_first_id(cs: Seq<Consumed>, c: Consumed)
    ensures
        match first_id(cs, c) {
            Some(id) => exists|i: int|
                0 <= i < cs.len() && same_slot(#[trigger] cs[i], c) && cs[i].offset == c.offset
                    && cs[i].id == id,
            None => forall|i: int|
                0 <= i < cs.len() ==> !(same_slot(#[trigger] cs[i], c) && cs[i].offset
                    == c.offset),
        },
    decreases cs.len(),
{
    if cs.len() > 0 {
        let head = cs.drop_last();
        lemma_first_id(head, c);
        let last = cs.len() - 1;
        assert(cs[last] == cs.last());
        match first_id(head, c) {
            Some(id) => {
                let k = choose|k: int|
                    0 <= k < head.len() && same_slot(#[trigger] head[k], c) && head[k].offset
                        == c.offset && head[k].id == id;
                assert(cs[k] == head[k]);
            },
            None => {
                assert forall|i: int| 0 <= i < last implies !(same_slot(#[trigger] cs[i], c)
                    && cs[i].offset == c.offset) by {
                    assert(head[i] == cs[i]);
                }
            },
        }
    }
}

/// No divergence is reported exactly where everybody saw one log.
pub proof fn law_divergences(cs: Seq<Consumed>)
    ensures
        divergences(cs).len() == 0 <==> one_truth(cs),
    decreases cs.len(),
{
    if cs.len() > 0 {
        let head = cs.drop_last();
        let c = cs.last();
        let last = cs.len() - 1;
        assert(cs[last] == c);
        law_divergences(head);
        lemma_first_id(head, c);
        if one_truth(cs) {
            assert forall|i: int, j: int|
                0 <= i < head.len() && 0 <= j < head.len() && same_slot(
                    #[trigger] head[i],
                    #[trigger] head[j],
                ) && head[i].offset == head[j].offset implies head[i].id == head[j].id by {
                assert(head[i] == cs[i] && head[j] == cs[j]);
            }
            if let Some(id) = first_id(head, c) {
                let k = choose|k: int|
                    0 <= k < head.len() && same_slot(#[trigger] head[k], c) && head[k].offset
                        == c.offset && head[k].id == id;
                assert(head[k] == cs[k]);
                assert(same_slot(cs[k], cs[last]));
            }
        }
        if divergences(cs).len() == 0 {
            assert forall|i: int|
                0 <= i < last && same_slot(#[trigger] cs[i], c) && cs[i].offset
                    == c.offset implies cs[i].id == c.id by {
                assert(head[i] == cs[i]);
                if let Some(id) = first_id(head, c) {
                    let k = choose|k: int|
                        0 <= k < head.len() && same_slot(#[trigger] head[k], c) && head[k].offset
                            == c.offset && head[k].id == id;
                    assert(same_slot(head[k], head[i]));
                }
            }
            assert forall|i: int, j: int|
                0 <= i < cs.len() && 0 <= j < cs.len() && same_slot(
                    #[trigger] cs[i],
                    #[trigger] cs[j],
                ) && cs[i].offset == cs[j].offset implies cs[i].id == cs[j].id by {
                if i < last && j < last {
                    assert(head[i] == cs[i] && head[j] == cs[j]);
                } else if i < last {
                    assert(same_slot(cs[i], c));
                } else if j < last {
                    assert(same_slot(cs[j], c));
                }
            }
        }
    }
}

/// A clean report means that the delivery contract was kept: every acked id was
/// consumed, every stream's offsets strictly rise, and everybody saw one log.
pub proof fn law_clean_report(e: Events, r: Report)
    requires
        reports(e, r),
        r.clean(),
    ensures
        produced_set(e).subset_of(consumed_set(e)),
        streams_rise(e.consumed),
        one_truth(e.consumed),
{
    law_rewinds(e.consumed);
    law_divergences(e.consumed);
    assert(rewinds(e.consumed).len() == r.monotonicity_violations@.len());
    assert(divergences(e.consumed).len() == r.divergent_offsets@.len());
    assert forall|id: u64| produced_set(e).contains(id) implies consumed_set(e).contains(id) by {
        assert(!r.missing_ids@.contains(id));
    }
}

/// The numbers up to `m` are finite, and `m + 1`.
proof fn lemma_upto(m: u64)
    ensures
        Set::new(|o: u64| o <= m).finite(),
        Set::new(|o: u64| o <= m).len() == m + 1,
    decreases m,
{
    let s = Set::new(|o: u64| o <= m);
    if m == 0 {
        let one = Set::<u64>::empty().insert(0u64);
        assert(s =~= one);
        assert(one.len() == 1);
    } else {
        let k = (m - 1) as u64;
        let t = Set::new(|o: u64| o <= k);
        lemma_upto(k);
        assert(s =~= t.insert(m));
        assert(t.insert(m).len() == t.len() + 1);
    }
}

proof fn lemma_no_gap(cs: Seq<Consumed>, c: Consumed, o: u64, m: u64)
    requires
        !has_gap(offsets_of(cs, c)),
        offsets_of(cs, c).contains(m),
        o <= m,
        offsets_of(cs, c).finite(),
    ensures
        offsets_of(cs, c).contains(o),
{
    let s = offsets_of(cs, c);
    lemma_has_max(s);
    let max = max_of(s);
    assert(is_max(s, max));
    let t = Set::new(|x: u64| x <= max);
    lemma_upto(max);
    assert(s.subset_of(t));
    lemma_subset_equality(s, t);
}

proof fn lemma_has_max(s: Set<u64>)
    requires
        s.finite(),
        s.len() > 0,
    ensures
        exists|m: u64| is_max(s, m),
    decreases s.len(),
{
    let a = s.choose();
    let t = s.remove(a);
    if t.len() == 0 {
        assert(forall|x: u64| t.contains(x) ==> false);
        assert forall|o: u64| #[trigger] s.contains(o) implies o <= a by {
            if o != a {
                assert(t.contains(o));
            }
        }
        assert(is_max(s, a));
    } else {
        lemma_has_max(t);
        let m = choose|m: u64| is_max(t, m);
        let b = if a > m {
            a
        } else {
            m
        };
        assert forall|o: u64| #[trigger] s.contains(o) implies o <= b by {
            if o != a {
                assert(t.contains(o));
            }
        }
        assert(is_max(s, b));
    }
}

proof fn lemma_offsets(cs: Seq<Consumed>, c: Consumed)
    ensures
        offsets_of(cs, c).finite(),
        forall|o: u64| #[trigger]
            offsets_of(cs, c).contains(o) <==> exists|i: int|
                0 <= i < cs.len() && same_slot(#[trigger] cs[i], c) && cs[i].offset == o,
    decreases cs.len(),
{
    if cs.len() > 0 {
        let head = cs.drop_last();
        let last = cs.len() - 1;
        lemma_offsets(head, c);
        assert(cs[last] == cs.last());
        assert forall|o: u64| #[trigger] offsets_of(cs, c).contains(o) <==> exists|i: int|
            0 <= i < cs.len() && same_slot(#[trigger] cs[i], c) && cs[i].offset == o by {
            if offsets_of(head, c).contains(o) {
                let k = choose|k: int|
                    0 <= k < head.len() && same_slot(#[trigger] head[k], c) && head[k].offset
                        == o;
                assert(cs[k] == head[k]);
            }
            if exists|i: int|
                0 <= i < cs.len() && same_slot(#[trigger] cs[i], c) && cs[i].offset == o {
                let k = choose|k: int|
                    0 <= k < cs.len() && same_slot(#[trigger] cs[k], c) && cs[k].offset == o;
                if k < last {
                    assert(head[k] == cs[k]);
                }
            }
        }
    }
}

proof fn lemma_gap_texts(slots: Seq<Consumed>, cs: Seq<Consumed>, j: int)
    requires
        0 <= j < slots.len(),
        gap_texts(slots, cs).len() == 0,
    ensures
        !has_gap(offsets_of(cs, slots[j])),
    decreases slots.len(),
{
    if j < slots.len() - 1 {
        assert(slots.drop_last()[j] == slots[j]);
        lemma_gap_texts(slots.drop_last(), cs, j);
    }
}

proof fn lemma_slot_of(cs: Seq<Consumed>, m: int) -> (j: int)
    requires
        0 <= m < cs.len(),
    ensures
        0 <= j < slots_of(cs).len(),
        same_slot(slots_of(cs)[j], cs[m]),
    decreases cs.len(),
{
    let head = cs.drop_last();
    let before = slots_of(head);
    if m < head.len() {
        assert(head[m] == cs[m]);
        let j = lemma_slot_of(head, m);
        assert(slots_of(cs)[j] == before[j]);
        j
    } else if exists|j: int| 0 <= j < before.len() && same_slot(#[trigger] before[j], cs.last()) {
        choose|j: int| 0 <= j < before.len() && same_slot(#[trigger] before[j], cs.last())
    } else {
        before.len() as int
    }
}

/// No gap reported means that whoever consumed an offset of a partition, each
/// smaller offset of it was consumed by someone.
pub proof fn law_no_gaps(cs: Seq<Consumed>, m: int, o: u64)
    requires
        gaps(cs).len() == 0,
        0 <= m < cs.len(),
        o <= cs[m].offset,
    ensures
        exists|i: int|
            0 <= i < cs.len() && same_slot(#[trigger] cs[i], cs[m]) && cs[i].offset == o,
{
    let j = lemma_slot_of(cs, m);
    let c = slots_of(cs)[j];
    lemma_gap_texts(slots_of(cs), cs, j);
    lemma_offsets(cs, c);
    assert(same_slot(cs[m], c));
    assert(offsets_of(cs, c).contains(cs[m].offset));
    lemma_no_gap(cs, c, o, cs[m].offset);
    let k = choose|k: int|
        0 <= k < cs.len() && same_slot(#[trigger] cs[k], c) && cs[k].offset == o;
    assert(same_slot(cs[k], cs[m]));
}

/// What the checker finds fault with in the order of reading: a consumer that,
/// within one generation and partition, reads at or before an offset it read
/// already; and with nothing else.
pub proof fn law_order_checked(cs: Seq<Consumed>)
    ensures
        rewinds(cs).len() == 0 <==> forall|i: int, j: int|
            0 <= i < j < cs.len() && (#[trigger] cs[i]).consumer == (#[trigger] cs[j]).consumer
                && cs[i].generation == cs[j].generation && cs[i].topic == cs[j].topic
                && cs[i].partition == cs[j].partition ==> cs[i].offset < cs[j].offset,
{
    law_rewinds(cs);
    if streams_rise(cs) {
        assert forall|i: int, j: int|
            0 <= i < j < cs.len() && (#[trigger] cs[i]).consumer == (#[trigger] cs[j]).consumer
                && cs[i].generation == cs[j].generation && cs[i].topic == cs[j].topic
                && cs[i].partition == cs[j].partition implies cs[i].offset < cs[j].offset by {
            assert(same_stream(cs[i], cs[j]));
        }
    }
}

/// What the checker finds fault with in the content: two different ids read at
/// one offset of a partition, by whomever; and nothing else.
pub proof fn law_content_checked(cs: Seq<Consumed>)
    ensures
        divergences(cs).len() == 0 <==> forall|i: int, j: int|
            0 <= i < cs.len() && 0 <= j < cs.len() && (#[trigger] cs[i]).topic == (
            #[trigger] cs[j]).topic && cs[i].partition == cs[j].partition && cs[i].offset
                == cs[j].offset ==> cs[i].id == cs[j].id,
{
    law_divergences(cs);
    if one_truth(cs) {
        assert forall|i: int, j: int|
            0 <= i < cs.len() && 0 <= j < cs.len() && (#[trigger] cs[i]).topic == (
            #[trigger] cs[j]).topic && cs[i].partition == cs[j].partition && cs[i].offset
                == cs[j].offset implies cs[i].id == cs[j].id by {
            assert(same_slot(cs[i], cs[j]));
        }
    }
}

proof fn lemma_slots_from(cs: Seq<Consumed>, j: int)
    requires
        0 <= j < slots_of(cs).len(),
    ensures
        cs.contains(slots_of(cs)[j]),
    decreases cs.len(),
{
    if cs.len() > 0 {
        let head = cs.drop_last();
        let before = slots_of(head);
        assert(cs[cs.len() - 1] == cs.last());
        if j < before.len() {
            lemma_slots_from(head, j);
            let k = choose|k: int| 0 <= k < head.len() && head[k] == before[j];
            assert(cs[k] == before[j]);
        }
    }
}

proof fn lemma_whole(s: Set<u64>)
    requires
        s.finite(),
        s.len() > 0,
        forall|m: u64, o: u64| #[trigger] s.contains(m) && o <= m ==> #[trigger] s.contains(o),
    ensures
        !has_gap(s),
{
    lemma_has_max(s);
    let max = max_of(s);
    assert(is_max(s, max));
    lemma_upto(max);
    assert(s =~= Set::new(|x: u64| x <= max));
}

proof fn lemma_all_whole(slots: Seq<Consumed>, cs: Seq<Consumed>)
    requires
        forall|j: int| 0 <= j < slots.len() ==> !has_gap(offsets_of(cs, #[trigger] slots[j])),
    ensures
        gap_texts(slots, cs).len() == 0,
    decreases slots.len(),
{
    if slots.len() > 0 {
        let head = slots.drop_last();
        assert forall|j: int| 0 <= j < head.len() implies !has_gap(
            offsets_of(cs, #[trigger] head[j]),
        ) by {
            assert(head[j] == slots[j]);
        }
        lemma_all_whole(head, cs);
        assert(slots.last() == slots[slots.len() - 1]);
    }
}

/// What the checker finds fault with in what was read of a partition: an offset
/// before one that was read, and that nobody read; and nothing else.
pub proof fn law_gaps_checked(cs: Seq<Consumed>)
    ensures
        gaps(cs).len() == 0 <==> forall|m: int, o: u64|
            0 <= m < cs.len() && o <= (#[trigger] cs[m]).offset ==> #[trigger] was_read(
                cs,
                cs[m].topic,
                cs[m].partition,
                o,
            ),
{
    if gaps(cs).len() == 0 {
        assert forall|m: int, o: u64| 0 <= m < cs.len() && o <= (#[trigger] cs[m]).offset implies #[trigger] was_read(
        cs, cs[m].topic, cs[m].partition, o) by {
            law_no_gaps(cs, m, o);
        }
    }
    if forall|m: int, o: u64|
        0 <= m < cs.len() && o <= (#[trigger] cs[m]).offset ==> #[trigger] was_read(
            cs,
            cs[m].topic,
            cs[m].partition,
            o,
        ) {
        let slots = slots_of(cs);
        assert forall|j: int| 0 <= j < slots.len() implies !has_gap(
            offsets_of(cs, #[trigger] slots[j]),
        ) by {
            let c = slots[j];
            let s = offsets_of(cs, c);
            lemma_slots_from(cs, j);
            lemma_offsets(cs, c);
            let k = choose|k: int| 0 <= k < cs.len() && cs[k] == c;
            assert(same_slot(cs[k], c));
            assert(s.contains(c.offset));
            assert forall|m: u64, o: u64| #[trigger] s.contains(m) && o <= m implies #[trigger] s.contains(
            o) by {
                let i = choose|i: int|
                    0 <= i < cs.len() && same_slot(#[trigger] cs[i], c) && cs[i].offset == m;
                assert(was_read(cs, cs[i].topic, cs[i].partition, o));
                let n = choose|n: int|
                    0 <= n < cs.len() && (#[trigger] cs[n]).topic == cs[i].topic && cs[n].partition
                        == cs[i].partition && cs[n].offset == o;
                assert(same_slot(cs[n], c));
            }
            lemma_whole(s);
        }
        lemma_all_whole(slots, cs);
    }
}

/// Whether anybody read an offset of a partition.
pub open spec fn was_read(cs: Seq<Consumed>, topic: Seq<char>, partition: u32, offset: u64) -> bool {
    exists|i: int|
        0 <= i < cs.len() && (#[trigger] cs[i]).topic == topic && cs[i].partition == partition
            && cs[i].offset == offset
}

/// An id is reported missing exactly where its write was acknowledged and
/// nobody read it. What is read more than once counts as a duplicate each time
/// after the first, and is no fault.
pub proof fn law_missing(e: Events, r: Report, id: u64)
    requires
        reports(e, r),
    ensures
        r.missing_ids@.contains(id) <==> (exists|i: int|
            0 <= i < e.produced.len() && (#[trigger] e.produced[i]).id == id) && forall|j: int|
            0 <= j < e.consumed.len() ==> (#[trigger] e.consumed[j]).id != id,
        r.produced_acked == e.produced.len(),
        r.consumed_total == e.consumed.len(),
        r.duplicate_deliveries + r.distinct_consumed == r.consumed_total,
        r.distinct_consumed <= r.consumed_total,
{
    let ps = e.produced.map_values(|p: super::Produced| p.id);
    let cs = e.consumed.map_values(|c: Consumed| c.id);
    cs.lemma_cardinality_of_set();
    if produced_set(e).contains(id) {
        let i = choose|i: int| 0 <= i < ps.len() && ps[i] == id;
        assert(e.produced[i].id == id);
    }
    if exists|i: int| 0 <= i < e.produced.len() && (#[trigger] e.produced[i]).id == id {
        let i = choose|i: int| 0 <= i < e.produced.len() && (#[trigger] e.produced[i]).id == id;
        assert(ps[i] == id);
        assert(ps.contains(id));
    }
    if consumed_set(e).contains(id) {
        let j = choose|j: int| 0 <= j < cs.len() && cs[j] == id;
        assert(e.consumed[j].id == id);
    }
    assert forall|j: int| 0 <= j < e.consumed.len() && !consumed_set(e).contains(id) implies (
    #[trigger] e.consumed[j]).id != id by {
        assert(cs[j] == e.consumed[j].id);
        if cs[j] == id {
            assert(cs.contains(id));
        }
    }
}

/// A report without fault is what a run without fault gets: where every
/// acknowledged id was read, each stream in order and each offset with one id,
/// the report is clean but for gaps.
pub proof fn law_clean_if_clean(e: Events, r: Report)
    requires
        reports(e, r),
        forall|i: int|
            0 <= i < e.produced.len() ==> exists|j: int|
                0 <= j < e.consumed.len() && (#[trigger] e.consumed[j]).id == (
                #[trigger] e.produced[i]).id,
        streams_rise(e.consumed),
        one_truth(e.consumed),
        r.offset_gaps@.len() == 0,
    ensures
        r.clean(),
{
    law_rewinds(e.consumed);
    law_divergences(e.consumed);
    assert(rewinds(e.consumed).len() == r.monotonicity_violations@.len());
    assert(divergences(e.consumed).len() == r.divergent_offsets@.len());
    if r.missing_ids@.len() > 0 {
        let id = r.missing_ids@[0];
        assert(r.missing_ids@.contains(id));
        law_missing(e, r, id);
        let i = choose|i: int| 0 <= i < e.produced.len() && (#[trigger] e.produced[i]).id == id;
        let j = choose|j: int|
            0 <= j < e.consumed.len() && (#[trigger] e.consumed[j]).id == e.produced[i].id;
        assert(e.consumed[j].id != id);
    }
}

/// The report says that nothing was lost exactly where nothing is missing.
pub proof fn law_verdict_told(missing: Seq<u64>)
    ensures
        delivery_text(missing) == "  at-least-once: OK\n"@ <==> missing.len() == 0,
{
    reveal_strlit("  at-least-once: OK\n");
    reveal_strlit("  at-least-once: VIOLATED — ");
    if missing.len() > 0 {
        assert("  at-least-once: OK\n"@[17] == 'O');
        assert("  at-least-once: VIOLATED — "@[17] == 'V');
        assert(delivery_text(missing)[17] == 'V');
    }
}

} // verus!
