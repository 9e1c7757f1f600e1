//! Trimming, splitting and searching of texts.

use crate::text::{find_char, first_of, is_space, is_white, lemma_first_of_bound};
use vstd::prelude::*;
use vstd::slice::*;

verus! {

/// `s` without the white space at its front.
pub open spec fn trim_front(s: Seq<char>) -> Seq<char>
    decreases s.len(),
{
    if s.len() > 0 && is_space(s[0]) {
        trim_front(s.skip(1))
    } else {
        s
    }
}

/// `s` without the white space at its end.
pub open spec fn trim_back(s: Seq<char>) -> Seq<char>
    decreases s.len(),
{
    if s.len() > 0 && is_space(s.last()) {
        trim_back(s.drop_last())
    } else {
        s
    }
}

/// `s` without the white space around it.
pub open spec fn trimmed(s: Seq<char>) -> Seq<char> {
    trim_back(trim_front(s))
}

/// The number of white space characters at the front of `s`.
pub fn leading_white(s: &[char]) -> (k: usize)
    ensures
        k <= s@.len(),
        s@.skip(k as int) == trim_front(s@),
{
    let mut k: usize = 0;
    assert(s@.skip(0) =~= s@);
    while k < s.len() && is_white(s[k])
        invariant
            k <= s@.len(),
            trim_front(s@.skip(k as int)) == trim_front(s@),
        decreases s@.len() - k,
    {
        assert(s@.skip(k as int).skip(1) =~= s@.skip(k + 1));
        k += 1;
    }
    k
}

/// The text without the white space around it.
pub fn trim(s: &[char]) -> (r: Vec<char>)
    ensures
        r@ == trimmed(s@),
{
    let lo: usize = leading_white(s);
    let mut hi: usize = s.len();
    assert(s@.subrange(lo as int, hi as int) =~= s@.skip(lo as int));
    while lo < hi && is_white(s[hi - 1])
        invariant
            lo <= hi <= s@.len(),
            trim_back(s@.subrange(lo as int, hi as int)) == trimmed(s@),
        decreases hi,
    {
        assert(s@.subrange(lo as int, hi as int).drop_last() =~= s@.subrange(
            lo as int,
            hi - 1,
        ));
        assert(s@.subrange(lo as int, hi as int).last() == s@[hi - 1]);
        hi -= 1;
    }
    proof {
        if lo < hi {
            assert(s@.subrange(lo as int, hi as int).last() == s@[hi - 1]);
        }
    }
    let mut r: Vec<char> = Vec::new();
    r.extend_from_slice(slice_subrange(s, lo, hi));
    assert(r@ =~= s@.subrange(lo as int, hi as int));
    r
}

/// The pieces of `s` between the characters `c`.
pub open spec fn pieces(s: Seq<char>, c: char) -> Seq<Seq<char>>
    decreases s.len(),
    via pieces_end
{
    let k = first_of(s, c);
    if k == s.len() {
        seq![s]
    } else {
        seq![s.take(k)] + pieces(s.skip(k + 1), c)
    }
}

#[via_fn]
proof fn pieces_end(s: Seq<char>, c: char) {
    lemma_first_of_bound(s, c);
}

/// The pieces of a text between the characters `c`.
pub fn split_on(s: &[char], c: char) -> (r: Vec<Vec<char>>)
    ensures
        crate::text::char_rows(r@) == pieces(s@, c),
{
    let mut r: Vec<Vec<char>> = Vec::new();
    let mut at: usize = 0;
    assert(s@.skip(0) =~= s@);
    loop
        invariant
            at <= s@.len(),
            crate::text::char_rows(r@) + pieces(s@.skip(at as int), c) == pieces(s@, c),
        decreases s@.len() - at,
    {
        let rest: &[char] = slice_subrange(s, at, s.len());
        assert(rest@ =~= s@.skip(at as int));
        let k: usize = find_char(rest, c);
        let mut piece: Vec<char> = Vec::new();
        piece.extend_from_slice(slice_subrange(rest, 0, k));
        assert(piece@ =~= rest@.take(k as int));
        let ghost before = crate::text::char_rows(r@);
        r.push(piece);
        assert(crate::text::char_rows(r@) =~= before.push(rest@.take(k as int)));
        if k == rest.len() {
            assert(rest@.take(k as int) =~= rest@);
            assert(crate::text::char_rows(r@) =~= pieces(s@, c));
            return r;
        }
        assert(rest@.skip(k + 1) =~= s@.skip(at + k + 1));
        assert(crate::text::char_rows(r@) + pieces(s@.skip(at + k + 1), c) =~= before + (seq![
            rest@.take(k as int),
        ] + pieces(rest@.skip(k + 1), c)));
        at = at + k + 1;
    }
}

/// Whether `t` stands in `s` at `k`.
pub open spec fn stands_at(s: Seq<char>, t: Seq<char>, k: int) -> bool {
    0 <= k && k + t.len() <= s.len() && s.subrange(k, k + t.len()) == t
}

/// Where `t` first stands in `s`, from `k` on.
pub open spec fn find_from(s: Seq<char>, t: Seq<char>, k: int) -> Option<int>
    decreases s.len() - k,
{
    if k + t.len() > s.len() {
        None
    } else if stands_at(s, t, k) {
        Some(k)
    } else if k < s.len() {
        find_from(s, t, k + 1)
    } else {
        None
    }
}

/// Whether `t` stands in the text at `k`.
pub fn is_at(s: &[char], t: &[char], k: usize) -> (r: bool)
    requires
        k + t@.len() <= s@.len(),
    ensures
        r == stands_at(s@, t@, k as int),
{
    let n: usize = s.len();
    assert(k + t@.len() <= n);
    let part: &[char] = slice_subrange(s, k, k + t.len());
    crate::text::same_chars(part, t)
}

/// Where `t` first stands in the text.
pub fn find_text(s: &[char], t: &[char]) -> (r: Option<usize>)
    ensures
        match find_from(s@, t@, 0) {
            Some(k) => r matches Some(j) && j == k && 0 <= k && k + t@.len() <= s@.len(),
            None => r is None,
        },
{
    if t.len() > s.len() {
        return None;
    }
    let last: usize = s.len() - t.len();
    let mut k: usize = 0;
    loop
        invariant
            k <= last,
            last == s@.len() - t@.len(),
            find_from(s@, t@, k as int) == find_from(s@, t@, 0),
        decreases last - k,
    {
        if is_at(s, t, k) {
            return Some(k);
        }
        if k == last {
            assert(find_from(s@, t@, k as int) is None) by {
                reveal_with_fuel(find_from, 2);
            }
            return None;
        }
        k += 1;
    }
}

/// How often `t` stands in `s`, from `k` on, without overlap.
pub open spec fn count_from(s: Seq<char>, t: Seq<char>, k: int) -> nat
    decreases s.len() - k,
{
    if t.len() == 0 || k < 0 || k + t.len() > s.len() {
        0
    } else if stands_at(s, t, k) {
        1 + count_from(s, t, k + t.len())
    } else {
        count_from(s, t, k + 1)
    }
}

/// How often `t` stands in the text, without overlap.
pub fn count_text(s: &[char], t: &[char]) -> (n: usize)
    requires
        t@.len() > 0,
    ensures
        n == count_from(s@, t@, 0),
{
    let mut n: usize = 0;
    let mut k: usize = 0;
    while t.len() <= s.len() && k <= s.len() - t.len()
        invariant
            t@.len() > 0,
            k <= s@.len(),
            n <= k,
            n + count_from(s@, t@, k as int) == count_from(s@, t@, 0),
        decreases s@.len() - k,
    {
        if is_at(s, t, k) {
            n += 1;
            k += t.len();
        } else {
            k += 1;
        }
    }
    n
}

/// A text is found where it first stands, and nowhere where it does not.
pub proof fn law_found(s: Seq<char>, t: Seq<char>, from: int)
    requires
        0 <= from,
    ensures
        find_from(s, t, from) matches Some(k) ==> from <= k && k + t.len() <= s.len() && s.subrange(
            k,
            k + t.len(),
        ) == t && forall|j: int|
            from <= j < k ==> s.subrange(j, #[trigger] (j + t.len())) != t,
        find_from(s, t, from) is None ==> forall|j: int|
            from <= j && #[trigger] (j + t.len()) <= s.len() ==> s.subrange(j, j + t.len()) != t,
    decreases s.len() - from,
{
    if from + t.len() <= s.len() && !stands_at(s, t, from) && from < s.len() {
        law_found(s, t, from + 1);
    }
}

proof fn lemma_trim_front(s: Seq<char>) -> (k: int)
    ensures
        0 <= k <= s.len(),
        trim_front(s) == s.skip(k),
        forall|i: int| 0 <= i < k ==> is_space(#[trigger] s[i]),
        k < s.len() ==> !is_space(s[k]),
    decreases s.len(),
{
    if s.len() > 0 && is_space(s[0]) {
        let tail = s.skip(1);
        let k = lemma_trim_front(tail);
        assert(tail.skip(k) =~= s.skip(k + 1));
        assert forall|i: int| 0 <= i < k + 1 implies is_space(#[trigger] s[i]) by {
            if i > 0 {
                assert(tail[i - 1] == s[i]);
            }
        }
        k + 1
    } else {
        assert(s.skip(0) =~= s);
        0
    }
}

proof fn lemma_trim_back(s: Seq<char>) -> (k: int)
    ensures
        0 <= k <= s.len(),
        trim_back(s) == s.take(k),
        forall|i: int| k <= i < s.len() ==> is_space(#[trigger] s[i]),
        k > 0 ==> !is_space(s[k - 1]),
    decreases s.len(),
{
    if s.len() > 0 && is_space(s.last()) {
        let head = s.drop_last();
        let k = lemma_trim_back(head);
        assert(head.take(k) =~= s.take(k));
        assert forall|i: int| k <= i < s.len() implies is_space(#[trigger] s[i]) by {
            if i < head.len() {
                assert(head[i] == s[i]);
            }
        }
        k
    } else {
        assert(s.take(s.len() as int) =~= s);
        s.len() as int
    }
}

/// Trimming takes away the white space at both ends and nothing else.
pub proof fn law_trimmed(s: Seq<char>) -> (cut: (int, int))
    ensures
        0 <= cut.0 <= cut.1 <= s.len(),
        trimmed(s) == s.subrange(cut.0, cut.1),
        forall|i: int| 0 <= i < cut.0 || cut.1 <= i < s.len() ==> is_space(#[trigger] s[i]),
        cut.0 < cut.1 ==> !is_space(s[cut.0]) && !is_space(s[cut.1 - 1]),
{
    let a = lemma_trim_front(s);
    let t = trim_front(s);
    let k = lemma_trim_back(t);
    assert(t.take(k) =~= s.subrange(a, a + k));
    assert forall|i: int| 0 <= i < a || a + k <= i < s.len() implies is_space(#[trigger] s[i]) by {
        if i >= a + k {
            assert(t[i - a] == s[i]);
        }
    }
    (a, a + k)
}

/// The pieces of a text, with the character between them put back.
pub open spec fn rejoined(ps: Seq<Seq<char>>, c: char) -> Seq<char>
    decreases ps.len(),
{
    if ps.len() == 0 {
        Seq::empty()
    } else if ps.len() == 1 {
        ps[0]
    } else {
        ps[0] + seq![c] + rejoined(ps.skip(1), c)
    }
}

/// A text is split at every such character and nowhere else: its pieces hold
/// none, and put together again they are the text.
pub proof fn law_pieces(s: Seq<char>, c: char)
    ensures
        pieces(s, c).len() >= 1,
        rejoined(pieces(s, c), c) == s,
        forall|i: int, k: int|
            0 <= i < pieces(s, c).len() && 0 <= k < pieces(s, c)[i].len() ==> #[trigger] pieces(
                s,
                c,
            )[i][k] != c,
    decreases s.len(),
{
    lemma_first_of_bound(s, c);
    lemma_first_of_none(s, c);
    let k = first_of(s, c);
    let ps = pieces(s, c);
    if k < s.len() {
        let rest = s.skip(k + 1);
        law_pieces(rest, c);
        let qs = pieces(rest, c);
        assert(ps == seq![s.take(k)] + qs);
        assert(ps.skip(1) =~= qs);
        assert(ps[0] == s.take(k));
        assert(s =~= s.take(k) + seq![c] + rest);
        assert forall|i: int, j: int| 0 <= i < ps.len() && 0 <= j < ps[i].len() implies #[trigger] ps[i][j]
            != c by {
            if i > 0 {
                assert(ps[i] == qs[i - 1]);
                assert(qs[i - 1][j] != c);
            } else {
                assert(s[j] != c);
            }
        }
    }
}

pub proof fn lemma_first_of_none(s: Seq<char>, c: char)
    ensures
        forall|i: int| 0 <= i < first_of(s, c) && i < s.len() ==> #[trigger] s[i] != c,
        first_of(s, c) < s.len() ==> s[first_of(s, c)] == c,
    decreases s.len(),
{
    if s.len() > 0 && s[0] != c {
        let tail = s.skip(1);
        lemma_first_of_none(tail, c);
        assert forall|i: int| 0 <= i < first_of(s, c) && i < s.len() implies #[trigger] s[i]
            != c by {
            if i > 0 {
                assert(tail[i - 1] == s[i]);
            }
        }
        lemma_first_of_bound(tail, c);
    }
}

} // verus!
