//! Sorting numbers and texts.

use crate::text::chars_of;
use vstd::multiset::*;
use vstd::prelude::*;
use vstd::seq_lib::*;

verus! {

/// No number is followed by a smaller one.
pub open spec fn ascending(s: Seq<u64>) -> bool {
    forall|i: int, j: int| 0 <= i <= j < s.len() ==> s[i] <= s[j]
}

/// A number put behind the last one that is not larger.
pub open spec fn with_number(s: Seq<u64>, x: u64) -> Seq<u64>
    decreases s.len(),
{
    if s.len() == 0 || s.last() <= x {
        s.push(x)
    } else {
        with_number(s.drop_last(), x).push(s.last())
    }
}

/// The numbers in order, each as often as before.
pub open spec fn sorted_numbers(s: Seq<u64>) -> Seq<u64>
    decreases s.len(),
{
    if s.len() == 0 {
        Seq::empty()
    } else {
        with_number(sorted_numbers(s.drop_last()), s.last())
    }
}

proof fn lemma_with_number(s: Seq<u64>, x: u64, k: int)
    requires
        0 <= k <= s.len(),
        forall|i: int| k <= i < s.len() ==> s[i] > x,
        k > 0 ==> s[k - 1] <= x,
    ensures
        with_number(s, x) == s.insert(k, x),
    decreases s.len(),
{
    if k == s.len() {
        assert(s.push(x) =~= s.insert(k, x));
    } else {
        lemma_with_number(s.drop_last(), x, k);
        assert(s.drop_last().insert(k, x).push(s.last()) =~= s.insert(k, x));
    }
}

proof fn lemma_with_number_len(s: Seq<u64>, x: u64)
    ensures
        with_number(s, x).len() == s.len() + 1,
    decreases s.len(),
{
    if !(s.len() == 0 || s.last() <= x) {
        lemma_with_number_len(s.drop_last(), x);
    }
}

pub proof fn lemma_sorted_len(s: Seq<u64>)
    ensures
        sorted_numbers(s).len() == s.len(),
    decreases s.len(),
{
    if s.len() > 0 {
        lemma_sorted_len(s.drop_last());
        lemma_with_number_len(sorted_numbers(s.drop_last()), s.last());
    }
}

/// Puts `x` behind the last number that is not larger.
fn insert_sorted(v: &mut Vec<u64>, x: u64)
    requires
        ascending(old(v)@),
    ensures
        ascending(final(v)@),
        final(v)@ == with_number(old(v)@, x),
        final(v)@.to_multiset() == old(v)@.to_multiset().insert(x),
{
    let mut i: usize = v.len();
    while i > 0 && v[i - 1] > x
        invariant
            i <= v@.len(),
            forall|k: int| i <= k < v@.len() ==> v@[k] > x,
        decreases i,
    {
        i = i - 1;
    }
    proof {
        broadcast use group_to_multiset_ensures;

        lemma_with_number(v@, x, i as int);
        let longer = v@.insert(i as int, x);
        assert(longer.remove(i as int) =~= v@);
        to_multiset_remove(longer, i as int);
        assert(longer.contains(longer[i as int]));
        assert(longer.to_multiset() =~= v@.to_multiset().insert(x));
    }
    v.insert(i, x);
}

/// Sorts numbers.
pub fn sort_numbers(v: &Vec<u64>) -> (r: Vec<u64>)
    ensures
        ascending(r@),
        r@ == sorted_numbers(v@),
        r@.to_multiset() == v@.to_multiset(),
{
    let mut r: Vec<u64> = Vec::new();
    let mut i: usize = 0;
    assert(v@.take(0) =~= Seq::<u64>::empty());
    while i < v.len()
        invariant
            i <= v@.len(),
            ascending(r@),
            r@ == sorted_numbers(v@.take(i as int)),
            r@.to_multiset() == v@.take(i as int).to_multiset(),
        decreases v@.len() - i,
    {
        insert_sorted(&mut r, v[i]);
        proof {
            broadcast use group_to_multiset_ensures;

            assert(v@.take(i + 1).drop_last() =~= v@.take(i as int));

            assert(v@.take(i + 1) =~= v@.take(i as int).push(v@[i as int]));
        }
        i = i + 1;
    }
    assert(v@.take(i as int) =~= v@);
    r
}

/// Every number is followed by larger ones only.
pub open spec fn rising_numbers(s: Seq<u64>) -> bool {
    forall|i: int, j: int| 0 <= i < j < s.len() ==> s[i] < s[j]
}

/// Sorts numbers and drops repeated ones.
pub fn sort_distinct(v: &Vec<u64>) -> (r: Vec<u64>)
    ensures
        rising_numbers(r@),
        forall|x: u64| #[trigger] r@.contains(x) <==> v@.contains(x),
{
    let sorted: Vec<u64> = sort_numbers(v);
    let mut r: Vec<u64> = Vec::new();
    let mut i: usize = 0;
    while i < sorted.len()
        invariant
            i <= sorted@.len(),
            ascending(sorted@),
            rising_numbers(r@),
            i > 0 <==> r@.len() > 0,
            i > 0 ==> r@.last() == sorted@[i - 1],
            forall|x: u64| #[trigger] r@.contains(x) <==> sorted@.take(i as int).contains(x),
        decreases sorted@.len() - i,
    {
        let x: u64 = sorted[i];
        let ghost before = r@;
        let ghost seen = sorted@.take(i as int);
        if i == 0 || sorted[i - 1] != x {
            r.push(x);
        }
        proof {
            let longer = sorted@.take(i + 1);
            assert(longer =~= seen.push(x));
            assert forall|y: u64| #[trigger] r@.contains(y) <==> longer.contains(y) by {
                if r@.contains(y) {
                    let k = choose|k: int| 0 <= k < r@.len() && r@[k] == y;
                    if k < before.len() {
                        assert(before[k] == y);
                        assert(before.contains(y));
                        let m = choose|m: int| 0 <= m < seen.len() && seen[m] == y;
                        assert(longer[m] == y);
                    } else {
                        assert(longer[i as int] == y);
                    }
                }
                if longer.contains(y) {
                    let m = choose|m: int| 0 <= m < longer.len() && longer[m] == y;
                    if m < i {
                        assert(seen[m] == y);
                        assert(before.contains(y));
                        let k = choose|k: int| 0 <= k < before.len() && before[k] == y;
                        assert(r@[k] == y);
                    } else {
                        assert(r@[r@.len() - 1] == y);
                    }
                }
            }
        }
        i = i + 1;
    }
    assert(sorted@.take(i as int) =~= sorted@);
    proof {
        broadcast use group_to_multiset_ensures;

        assert forall|x: u64| #[trigger] r@.contains(x) <==> v@.contains(x) by {
            assert(sorted@.contains(x) <==> sorted@.to_multiset().count(x) > 0);
            assert(v@.contains(x) <==> v@.to_multiset().count(x) > 0);
        }
    }
    r
}

/// Whether `a` comes before `b` in the order of their characters, or is `b`.
pub open spec fn text_le(a: Seq<char>, b: Seq<char>) -> bool
    decreases a.len(),
{
    if a.len() == 0 {
        true
    } else if b.len() == 0 {
        false
    } else if a[0] != b[0] {
        a[0] < b[0]
    } else {
        text_le(a.skip(1), b.skip(1))
    }
}

/// No text is followed by one that comes before it.
pub open spec fn ascending_texts(s: Seq<Seq<char>>) -> bool {
    forall|i: int, j: int| 0 <= i <= j < s.len() ==> text_le(#[trigger] s[i], #[trigger] s[j])
}

pub proof fn lemma_text_le_total(a: Seq<char>, b: Seq<char>)
    ensures
        text_le(a, b) || text_le(b, a),
        text_le(a, a),
    decreases a.len(),
{
    if a.len() > 0 {
        if b.len() > 0 {
            lemma_text_le_total(a.skip(1), b.skip(1));
        } else {
            lemma_text_le_total(a.skip(1), b);
        }
    }
}

pub proof fn lemma_text_le_trans(a: Seq<char>, b: Seq<char>, c: Seq<char>)
    requires
        text_le(a, b),
        text_le(b, c),
    ensures
        text_le(a, c),
    decreases a.len(),
{
    if a.len() > 0 && b.len() > 0 && c.len() > 0 && a[0] == b[0] && b[0] == c[0] {
        lemma_text_le_trans(a.skip(1), b.skip(1), c.skip(1));
    }
}

/// Two texts each before the other are the same.
pub proof fn lemma_text_le_antisym(a: Seq<char>, b: Seq<char>)
    requires
        text_le(a, b),
        text_le(b, a),
    ensures
        a == b,
    decreases a.len(),
{
    if a.len() > 0 && b.len() > 0 {
        lemma_text_le_antisym(a.skip(1), b.skip(1));
        assert(a =~= seq![a[0]] + a.skip(1));
        assert(b =~= seq![b[0]] + b.skip(1));
    } else {
        assert(a =~= b);
    }
}

/// Whether `a` comes before `b`, or is `b`.
pub fn text_before(a: &str, b: &str) -> (r: bool)
    ensures
        r == text_le(a@, b@),
{
    let x: Vec<char> = chars_of(a);
    let y: Vec<char> = chars_of(b);
    let mut i: usize = 0;
    assert(x@.skip(0) =~= x@);
    assert(y@.skip(0) =~= y@);
    while i < x.len() && i < y.len()
        invariant
            i <= x@.len(),
            i <= y@.len(),
            x@ == a@,
            y@ == b@,
            text_le(a@, b@) == text_le(x@.skip(i as int), y@.skip(i as int)),
        decreases x@.len() - i,
    {
        assert(x@.skip(i as int).skip(1) =~= x@.skip(i + 1));
        assert(y@.skip(i as int).skip(1) =~= y@.skip(i + 1));
        if x[i] != y[i] {
            return x[i] < y[i];
        }
        i = i + 1;
    }
    i == x.len()
}

/// The texts of strings.
pub open spec fn texts(v: Seq<String>) -> Seq<Seq<char>> {
    v.map_values(|s: String| s@)
}

/// Puts `x` behind the last text that does not come behind it.
fn insert_text(v: &mut Vec<String>, x: String)
    requires
        ascending_texts(texts(old(v)@)),
    ensures
        ascending_texts(texts(final(v)@)),
        texts(final(v)@).to_multiset() == texts(old(v)@).to_multiset().insert(x@),
{
    let mut i: usize = v.len();
    let ghost before = texts(v@);
    while i > 0 && !text_before(v[i - 1].as_str(), x.as_str())
        invariant
            i <= v@.len(),
            before == texts(v@),
            forall|k: int| i <= k < v@.len() ==> !text_le(#[trigger] before[k], x@),
        decreases i,
    {
        assert(before[i - 1] == v@[i - 1]@);
        i = i - 1;
    }
    let ghost text = x@;
    proof {
        broadcast use group_to_multiset_ensures;

        let longer = before.insert(i as int, text);
        assert(longer.remove(i as int) =~= before);
        to_multiset_remove(longer, i as int);
        assert(longer.contains(longer[i as int]));
        assert(longer.to_multiset() =~= before.to_multiset().insert(text));
        assert forall|j: int, k: int| 0 <= j <= k < longer.len() implies text_le(
            #[trigger] longer[j],
            #[trigger] longer[k],
        ) by {
            lemma_text_le_total(longer[j], longer[k]);
            if k == i && j < i {
                assert(longer[j] == before[j]);
                assert(text_le(before[j], before[i - 1]));
                assert(before[i - 1] == v@[i - 1]@);
                lemma_text_le_trans(before[j], before[i - 1], text);
            } else if j == i && k > i {
                assert(longer[k] == before[k - 1]);
                lemma_text_le_total(text, before[k - 1]);
            } else if j < i && k > i {
                assert(text_le(before[j], before[k - 1]));
            } else if k < i {
                assert(text_le(before[j], before[k]));
            } else if j > i {
                assert(text_le(before[j - 1], before[k - 1]));
            }
        }
    }
    v.insert(i, x);
    assert(texts(v@) =~= before.insert(i as int, text));
}

/// Sorts texts.
pub fn sort_texts(v: Vec<String>) -> (r: Vec<String>)
    ensures
        ascending_texts(texts(r@)),
        texts(r@).to_multiset() == texts(v@).to_multiset(),
{
    let mut r: Vec<String> = Vec::new();
    let ghost all = texts(v@);
    let mut i: usize = 0;
    assert(all.take(0) =~= Seq::empty());
    assert(texts(r@) =~= Seq::empty());
    while i < v.len()
        invariant
            i <= v@.len(),
            all == texts(v@),
            ascending_texts(texts(r@)),
            texts(r@).to_multiset() == all.take(i as int).to_multiset(),
        decreases v@.len() - i,
    {
        insert_text(&mut r, v[i].clone());
        proof {
            broadcast use group_to_multiset_ensures;

            assert(all[i as int] == v@[i as int]@);
            assert(all.take(i + 1) =~= all.take(i as int).push(all[i as int]));
        }
        i = i + 1;
    }
    assert(all.take(i as int) =~= all);
    r
}

/// Texts that rise: in order, none twice.
pub open spec fn rising_texts(s: Seq<Seq<char>>) -> bool {
    forall|i: int, j: int|
        0 <= i < j < s.len() ==> text_le(#[trigger] s[i], #[trigger] s[j]) && s[i] != s[j]
}

/// A text put in its place among rising ones, unless it is there.
pub open spec fn with_text(s: Seq<Seq<char>>, t: Seq<char>) -> Seq<Seq<char>>
    decreases s.len(),
{
    if s.len() == 0 {
        seq![t]
    } else if s.last() == t {
        s
    } else if text_le(s.last(), t) {
        s.push(t)
    } else {
        with_text(s.drop_last(), t).push(s.last())
    }
}

/// The texts in order, each once.
pub open spec fn distinct_texts(s: Seq<Seq<char>>) -> Seq<Seq<char>>
    decreases s.len(),
{
    if s.len() == 0 {
        Seq::empty()
    } else {
        with_text(distinct_texts(s.drop_last()), s.last())
    }
}

pub proof fn lemma_text_push(s: Seq<Seq<char>>, t: Seq<char>, x: Seq<char>)
    ensures
        s.push(t).contains(x) <==> s.contains(x) || x == t,
{
    if s.contains(x) {
        let k = choose|k: int| 0 <= k < s.len() && s[k] == x;
        assert(s.push(t)[k] == x);
    }
    if x == t {
        assert(s.push(t)[s.len() as int] == x);
    }
}

pub proof fn lemma_with_text(s: Seq<Seq<char>>, t: Seq<char>)
    requires
        rising_texts(s),
    ensures
        rising_texts(with_text(s, t)),
        forall|x: Seq<char>| #[trigger] with_text(s, t).contains(x) <==> s.contains(x) || x == t,
        with_text(s, t).len() > 0,
        with_text(s, t).last() == (if s.len() == 0 || text_le(s.last(), t) {
            t
        } else {
            s.last()
        }),
    decreases s.len(),
{
    let r = with_text(s, t);
    if s.len() == 0 {
        assert forall|x: Seq<char>| #[trigger] r.contains(x) <==> s.contains(x) || x == t by {
            lemma_text_push(s, t, x);
            assert(r =~= s.push(t));
        }
    } else if s.last() == t {
        lemma_text_le_total(t, t);
        assert(s.contains(t)) by {
            assert(s[s.len() - 1] == t);
        }
    } else if text_le(s.last(), t) {
        assert forall|x: Seq<char>| #[trigger] r.contains(x) <==> s.contains(x) || x == t by {
            lemma_text_push(s, t, x);
        }
        assert forall|i: int, j: int| 0 <= i < j < r.len() implies text_le(
            #[trigger] r[i],
            #[trigger] r[j],
        ) && r[i] != r[j] by {
            if j == s.len() {
                if i < s.len() - 1 {
                    lemma_text_le_trans(s[i], s[s.len() - 1], t);
                    if s[i] == t {
                        lemma_text_le_antisym(s[s.len() - 1], t);
                    }
                }
            } else {
                assert(text_le(s[i], s[j]));
            }
        }
    } else {
        let head = s.drop_last();
        let h = with_text(head, t);
        lemma_with_text(head, t);
        lemma_text_le_total(s.last(), t);
        assert forall|x: Seq<char>| #[trigger] r.contains(x) <==> s.contains(x) || x == t by {
            lemma_text_push(h, s.last(), x);
            lemma_text_push(head, s.last(), x);
            assert(head.push(s.last()) =~= s);
        }
        assert(text_le(h.last(), s.last()) && h.last() != s.last()) by {
            if head.len() > 0 {
                assert(text_le(s[s.len() - 2], s[s.len() - 1]));
            }
        }
        assert forall|i: int, j: int| 0 <= i < j < r.len() implies text_le(
            #[trigger] r[i],
            #[trigger] r[j],
        ) && r[i] != r[j] by {
            if j == h.len() {
                if i < h.len() - 1 {
                    assert(text_le(h[i], h[h.len() - 1]) && h[i] != h[h.len() - 1]);
                    lemma_text_le_trans(h[i], h[h.len() - 1], s.last());
                    if h[i] == s.last() {
                        lemma_text_le_antisym(h[i], h[h.len() - 1]);
                    }
                }
            } else {
                assert(text_le(h[i], h[j]));
            }
        }
    }
}

/// The distinct texts rise, and are the texts.
pub proof fn law_distinct_texts(s: Seq<Seq<char>>)
    ensures
        rising_texts(distinct_texts(s)),
        forall|x: Seq<char>| #[trigger] distinct_texts(s).contains(x) <==> s.contains(x),
    decreases s.len(),
{
    if s.len() > 0 {
        let head = s.drop_last();
        law_distinct_texts(head);
        lemma_with_text(distinct_texts(head), s.last());
        assert forall|x: Seq<char>| #[trigger] distinct_texts(s).contains(x) <==> s.contains(x) by {
            lemma_text_push(head, s.last(), x);
            assert(head.push(s.last()) =~= s);
        }
    }
}

proof fn lemma_place_text(s: Seq<Seq<char>>, t: Seq<char>, k: int)
    requires
        0 <= k <= s.len(),
        forall|i: int| k <= i < s.len() ==> s[i] != t && !text_le(#[trigger] s[i], t),
        k > 0 ==> text_le(s[k - 1], t),
    ensures
        with_text(s, t) == (if k > 0 && s[k - 1] == t {
            s
        } else {
            s.insert(k, t)
        }),
    decreases s.len(),
{
    if k == s.len() {
        assert(s.push(t) =~= s.insert(k, t));
    } else {
        let head = s.drop_last();
        assert(s[s.len() - 1] == s.last());
        lemma_place_text(head, t, k);
        if k > 0 && s[k - 1] == t {
            assert(head.push(s.last()) =~= s);
        } else {
            assert(head.insert(k, t).push(s.last()) =~= s.insert(k, t));
        }
    }
}

/// Puts a text in its place among rising ones, unless it is there.
pub fn add_text(v: &mut Vec<String>, x: &String)
    ensures
        texts(final(v)@) == with_text(texts(old(v)@), x@),
{
    let mut k: usize = v.len();
    let ghost before = texts(v@);
    while k > 0 && !text_before(v[k - 1].as_str(), x.as_str())
        invariant
            k <= v@.len(),
            before == texts(v@),
            forall|i: int|
                k <= i < v@.len() ==> before[i] != x@ && !text_le(#[trigger] before[i], x@),
        decreases k,
    {
        assert(before[k - 1] == v@[k - 1]@);
        proof {
            lemma_text_le_total(x@, x@);
        }
        k = k - 1;
    }
    proof {
        if k > 0 {
            assert(before[k - 1] == v@[k - 1]@);
        }
        lemma_place_text(before, x@, k as int);
    }
    if k > 0 && v[k - 1] == *x {
        return;
    }
    v.insert(k, x.clone());
    assert(texts(v@) =~= before.insert(k as int, x@));
}

/// What is in a row after one more was put behind it.
pub proof fn lemma_push_has<T>(s: Seq<T>, last: T, x: T)
    ensures
        s.push(last).contains(x) <==> x == last || s.contains(x),
{
    let out = s.push(last);
    if s.contains(x) {
        let i = choose|i: int| 0 <= i < s.len() && s[i] == x;
        assert(out[i] == x);
    }
    if x == last {
        assert(out[s.len() as int] == x);
    }
    if out.contains(x) && x != last {
        let i = choose|i: int| 0 <= i < out.len() && out[i] == x;
        assert(s[i] == x);
    }
}

} // verus!
