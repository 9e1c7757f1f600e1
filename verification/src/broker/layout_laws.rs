//! What a broker finds in its data directory.

use super::layout::{
    contiguous, hosted_topics, named, numbers_of, seen_before, topics_found, DirEntry, Found,
};
use super::offsets::OFFSETS_TOPIC;
use crate::order::{lemma_push_has, lemma_sorted_len, sorted_numbers, with_number};
use crate::text::{decimal, is_digit, last_of, law_parse_decimal, lemma_decimal_digits};
use vstd::prelude::*;

verus! {

proof fn lemma_with_number_has(s: Seq<u64>, n: u64, x: u64)
    ensures
        with_number(s, n).contains(x) <==> x == n || s.contains(x),
    decreases s.len(),
{
    if s.len() == 0 || s.last() <= n {
        lemma_push_has(s, n, x);
    } else {
        let head = s.drop_last();
        assert(s =~= head.push(s.last()));
        lemma_with_number_has(head, n, x);
        lemma_push_has(head, s.last(), x);
        lemma_push_has(with_number(head, n), s.last(), x);
    }
}

proof fn lemma_sorted_has(s: Seq<u64>, x: u64)
    ensures
        sorted_numbers(s).contains(x) <==> s.contains(x),
    decreases s.len(),
{
    if s.len() > 0 {
        let head = s.drop_last();
        assert(s =~= head.push(s.last()));
        lemma_sorted_has(head, x);
        lemma_push_has(head, s.last(), x);
        lemma_with_number_has(sorted_numbers(head), s.last(), x);
    }
}

proof fn lemma_numbers_has(fs: Seq<Found>, topic: Seq<char>, p: u64)
    ensures
        numbers_of(fs, topic).contains(p) <==> fs.contains((topic, p)),
        numbers_of(fs, topic).len() <= fs.len(),
    decreases fs.len(),
{
    if fs.len() > 0 {
        let head = fs.drop_last();
        assert(fs =~= head.push(fs.last()));
        lemma_numbers_has(head, topic, p);
        lemma_push_has(head, fs.last(), (topic, p));
        lemma_push_has(numbers_of(head, topic), fs.last().1, p);
    }
}

proof fn lemma_last_of(s: Seq<char>, c: char, k: int)
    requires
        0 <= k < s.len(),
        s[k] == c,
        forall|i: int| k < i < s.len() ==> s[i] != c,
    ensures
        last_of(s, c) == k,
    decreases s.len(),
{
    if k < s.len() - 1 {
        assert(s[s.len() - 1] != c);
        lemma_last_of(s.drop_last(), c, k);
    }
}

/// The directory `<topic>-<partition>` is taken for that partition, whatever
/// the topic's name; a hidden entry is passed over, and a file is an error.
pub proof fn law_directory(es: Seq<DirEntry>, e: DirEntry, topic: Seq<char>, p: u64)
    requires
        named(es) is Ok,
        e.name@ == topic + "-"@ + decimal(p as nat),
    ensures
        e.name@[0] != '.' && e.is_dir ==> named(es.push(e)) == Ok::<Seq<Found>, Seq<char>>(
            named(es)->Ok_0.push((topic, p)),
        ),
        e.name@[0] == '.' ==> named(es.push(e)) == named(es),
        e.name@[0] != '.' && !e.is_dir ==> named(es.push(e)) is Err,
{
    reveal_strlit("-");
    let name = e.name@;
    let dash = topic.len() as int;
    let digits = decimal(p as nat);
    lemma_decimal_digits(p as nat);
    assert(es.push(e).drop_last() =~= es);
    assert(name[dash] == '-');
    assert forall|i: int| dash < i < name.len() implies name[i] != '-' by {
        assert(name[i] == digits[i - dash - 1]);
        assert(is_digit(digits[i - dash - 1]));
    }
    lemma_last_of(name, '-', dash);
    assert(name.skip(dash + 1) =~= digits);
    assert(name.take(dash) =~= topic);
    law_parse_decimal(p as nat, u64::MAX as nat);
}

/// The topics of a data directory are those that its partitions name, each
/// once, and each with all its partitions from 0 on and no others.
pub proof fn law_topics(fs: Seq<Found>, n: int)
    requires
        0 <= n <= fs.len() <= u32::MAX,
        topics_found(fs, n) is Ok,
    ensures
        ({
            let ts = topics_found(fs, n)->Ok_0;
            &&& forall|i: int|
                0 <= i < n ==> exists|k: int|
                    0 <= k < ts.len() && (#[trigger] ts[k]).0 == (#[trigger] fs[i]).0 && fs[i].1
                        < ts[k].1
            &&& forall|k: int, p: u64|
                0 <= k < ts.len() && p < (#[trigger] ts[k]).1 ==> #[trigger] fs.contains(
                    (ts[k].0, p),
                )
            &&& forall|a: int, b: int|
                0 <= a < b < ts.len() ==> (#[trigger] ts[a]).0 != (#[trigger] ts[b]).0
            &&& forall|k: int|
                0 <= k < ts.len() ==> seen_before(fs, n, (#[trigger] ts[k]).0)
        }),
    decreases n,
{
    if n > 0 {
        law_topics(fs, n - 1);
        let before = topics_found(fs, n - 1)->Ok_0;
        let ts = topics_found(fs, n)->Ok_0;
        let topic = fs[n - 1].0;
        let all = numbers_of(fs, topic);
        let ns = sorted_numbers(all);
        lemma_sorted_len(all);
        lemma_numbers_has(fs, topic, fs[n - 1].1);
        assert(fs.contains(fs[n - 1]));
        if seen_before(fs, n - 1, topic) {
            assert(ts == before);
            let j = choose|j: int| 0 <= j < n - 1 && (#[trigger] fs[j]).0 == topic;
            let k = choose|k: int|
                0 <= k < ts.len() && (#[trigger] ts[k]).0 == fs[j].0 && fs[j].1 < ts[k].1;
            lemma_count_of(fs, n - 1, k);
            assert(fs[n - 1].1 < ts[k].1);
            assert forall|i: int| 0 <= i < n implies exists|k: int|
                0 <= k < ts.len() && (#[trigger] ts[k]).0 == (#[trigger] fs[i]).0 && fs[i].1
                    < ts[k].1 by {
                if i == n - 1 {
                    assert(ts[k].0 == fs[i].0);
                }
            }
            assert forall|k: int| 0 <= k < ts.len() implies seen_before(
                fs,
                n,
                (#[trigger] ts[k]).0,
            ) by {
                assert(seen_before(fs, n - 1, ts[k].0));
            }
        } else {
            assert(contiguous(ns));
            let last = ts.len() - 1;
            assert(ts == before.push((topic, ns.len() as u32)));
            assert forall|i: int| 0 <= i < n implies exists|k: int|
                0 <= k < ts.len() && (#[trigger] ts[k]).0 == (#[trigger] fs[i]).0 && fs[i].1
                    < ts[k].1 by {
                if i == n - 1 {
                    lemma_sorted_has(all, fs[i].1);
                    let x = choose|x: int| 0 <= x < ns.len() && ns[x] == fs[i].1;
                    assert(ns[x] == x);
                    assert(ts[last].0 == fs[i].0);
                } else {
                    let k = choose|k: int|
                        0 <= k < before.len() && (#[trigger] before[k]).0 == fs[i].0 && fs[i].1
                            < before[k].1;
                    assert(ts[k] == before[k]);
                }
            }
            assert forall|k: int, p: u64| 0 <= k < ts.len() && p < (#[trigger] ts[k]).1 implies #[trigger] fs.contains(
            (ts[k].0, p)) by {
                if k == last {
                    assert(ns[p as int] == p);
                    assert(ns.contains(p));
                    lemma_sorted_has(all, p);
                    lemma_numbers_has(fs, topic, p);
                } else {
                    assert(ts[k] == before[k]);
                }
            }
            assert forall|a: int, b: int| 0 <= a < b < ts.len() implies (#[trigger] ts[a]).0 != (
            #[trigger] ts[b]).0 by {
                if b == last {
                    assert(seen_before(fs, n - 1, before[a].0));
                    assert(ts[a] == before[a]);
                } else {
                    assert(ts[a] == before[a] && ts[b] == before[b]);
                }
            }
            assert forall|k: int| 0 <= k < ts.len() implies seen_before(
                fs,
                n,
                (#[trigger] ts[k]).0,
            ) by {
                if k == last {
                    assert(fs[n - 1].0 == topic);
                } else {
                    assert(seen_before(fs, n - 1, before[k].0));
                    assert(ts[k] == before[k]);
                }
            }
        }
    }
}

proof fn lemma_count_of(fs: Seq<Found>, n: int, k: int)
    requires
        0 <= n <= fs.len() <= u32::MAX,
        topics_found(fs, n) is Ok,
        0 <= k < topics_found(fs, n)->Ok_0.len(),
    ensures
        ({
            let t = topics_found(fs, n)->Ok_0[k];
            forall|p: u64| #[trigger] fs.contains((t.0, p)) ==> p < t.1
        }),
    decreases n,
{
    if n > 0 {
        let before = topics_found(fs, n - 1)->Ok_0;
        let ts = topics_found(fs, n)->Ok_0;
        if k < before.len() {
            lemma_count_of(fs, n - 1, k);
            assert(ts[k] == before[k]);
        } else {
            let topic = fs[n - 1].0;
            let all = numbers_of(fs, topic);
            let ns = sorted_numbers(all);
            lemma_sorted_len(all);
            assert forall|p: u64| #[trigger] fs.contains((topic, p)) implies p < ns.len() by {
                lemma_numbers_has(fs, topic, p);
                lemma_sorted_has(all, p);
                let x = choose|x: int| 0 <= x < ns.len() && ns[x] == p;
                assert(ns[x] == x);
            }
            lemma_numbers_has(fs, topic, 0);
        }
    }
}

/// A broker of its own opens every topic that it finds but its offsets; one in a
/// cluster opens none before the controller says which.
pub proof fn law_opened(ts: Seq<(Seq<char>, u32)>)
    ensures
        hosted_topics(ts, true).len() == 0,
        hosted_topics(ts, false) == ts.filter(|t: (Seq<char>, u32)| t.0 != OFFSETS_TOPIC@),
    decreases ts.len(),
{
    reveal(Seq::filter);
    if ts.len() > 0 {
        law_opened(ts.drop_last());
    }
}

} // verus!
