//! Rows of broker ids.

use vstd::prelude::*;

verus! {

/// Whether `id` is in the row.
pub fn has_id(v: &Vec<u32>, id: u32) -> (r: bool)
    ensures
        r == v@.contains(id),
{
    let mut i: usize = 0;
    while i < v.len()
        invariant
            i <= v@.len(),
            forall|k: int| 0 <= k < i ==> v@[k] != id,
        decreases v@.len() - i,
    {
        if v[i] == id {
            return true;
        }
        i = i + 1;
    }
    false
}

/// Whether two rows are the same.
pub fn same_ids(a: &Vec<u32>, b: &Vec<u32>) -> (r: bool)
    ensures
        r == (a@ == b@),
{
    if a.len() != b.len() {
        return false;
    }
    let mut i: usize = 0;
    while i < a.len()
        invariant
            i <= a@.len() == b@.len(),
            forall|k: int| 0 <= k < i ==> a@[k] == b@[k],
        decreases a@.len() - i,
    {
        if a[i] != b[i] {
            return false;
        }
        i = i + 1;
    }
    assert(a@ =~= b@);
    true
}

/// The same row again.
pub fn copy_ids(v: &Vec<u32>) -> (r: Vec<u32>)
    ensures
        r@ == v@,
{
    let r: Vec<u32> = v.clone();
    assert(r@ =~= v@);
    r
}

/// Every id of `a` is in `b`.
pub open spec fn all_in(a: Seq<u32>, b: Seq<u32>) -> bool {
    forall|i: int| 0 <= i < a.len() ==> b.contains(#[trigger] a[i])
}

/// Whether every id of `a` is in `b`.
pub fn ids_within(a: &Vec<u32>, b: &Vec<u32>) -> (r: bool)
    ensures
        r == all_in(a@, b@),
{
    let mut i: usize = 0;
    while i < a.len()
        invariant
            i <= a@.len(),
            forall|k: int| 0 <= k < i ==> b@.contains(#[trigger] a@[k]),
        decreases a@.len() - i,
    {
        if !has_id(b, a[i]) {
            return false;
        }
        i = i + 1;
    }
    true
}

/// Every id is followed by larger ones only.
pub open spec fn rising_ids(s: Seq<u32>) -> bool {
    forall|i: int, j: int| 0 <= i < j < s.len() ==> s[i] < s[j]
}

/// No id is followed by a smaller one.
pub open spec fn ascending_ids(s: Seq<u32>) -> bool {
    forall|i: int, j: int| 0 <= i <= j < s.len() ==> s[i] <= s[j]
}

/// The ids in order, each as often as before.
pub open spec fn sorted_ids(s: Seq<u32>) -> Seq<u32>
    decreases s.len(),
{
    if s.len() == 0 {
        Seq::empty()
    } else {
        with_id(sorted_ids(s.drop_last()), s.last())
    }
}

/// An id put behind the last one that is not larger.
pub open spec fn with_id(s: Seq<u32>, id: u32) -> Seq<u32>
    decreases s.len(),
{
    if s.len() == 0 || s.last() <= id {
        s.push(id)
    } else {
        with_id(s.drop_last(), id).push(s.last())
    }
}

proof fn lemma_with_id(s: Seq<u32>, id: u32, k: int)
    requires
        0 <= k <= s.len(),
        forall|i: int| k <= i < s.len() ==> s[i] > id,
        k > 0 ==> s[k - 1] <= id,
    ensures
        with_id(s, id) == s.insert(k, id),
    decreases s.len(),
{
    if k == s.len() {
        assert(s.push(id) =~= s.insert(k, id));
    } else {
        lemma_with_id(s.drop_last(), id, k);
        assert(s.drop_last().insert(k, id).push(s.last()) =~= s.insert(k, id));
    }
}

/// Sorts ids.
pub fn sort_ids(v: &Vec<u32>) -> (r: Vec<u32>)
    ensures
        r@ == sorted_ids(v@),
{
    let mut r: Vec<u32> = Vec::new();
    let mut i: usize = 0;
    assert(v@.take(0) =~= Seq::empty());
    assert(r@ =~= Seq::empty());
    while i < v.len()
        invariant
            i <= v@.len(),
            r@ == sorted_ids(v@.take(i as int)),
        decreases v@.len() - i,
    {
        let id: u32 = v[i];
        let mut k: usize = r.len();
        while k > 0 && r[k - 1] > id
            invariant
                k <= r@.len(),
                forall|j: int| k <= j < r@.len() ==> r@[j] > id,
            decreases k,
        {
            k = k - 1;
        }
        proof {
            lemma_with_id(r@, id, k as int);
            assert(v@.take(i + 1).drop_last() =~= v@.take(i as int));
            assert(v@.take(i + 1).last() == id);
        }
        r.insert(k, id);
        i = i + 1;
    }
    assert(v@.take(i as int) =~= v@);
    r
}

proof fn lemma_with_id_ascends(s: Seq<u32>, id: u32)
    requires
        ascending_ids(s),
    ensures
        ascending_ids(with_id(s, id)),
        forall|x: u32| #[trigger] with_id(s, id).contains(x) <==> s.contains(x) || x == id,
        with_id(s, id).len() == s.len() + 1,
        with_id(s, id).last() == (if s.len() == 0 || s.last() <= id {
            id
        } else {
            s.last()
        }),
    decreases s.len(),
{
    let t = with_id(s, id);
    if s.len() == 0 || s.last() <= id {
        assert forall|x: u32| #[trigger] t.contains(x) <==> s.contains(x) || x == id by {
            lemma_push_contains(s, id, x);
        }
    } else {
        let head = s.drop_last();
        lemma_with_id_ascends(head, id);
        assert forall|x: u32| #[trigger] t.contains(x) <==> s.contains(x) || x == id by {
            lemma_push_contains(with_id(head, id), s.last(), x);
            lemma_push_contains(head, s.last(), x);
            assert(head.push(s.last()) =~= s);
        }
        if head.len() > 0 {
            assert(head.last() <= s.last());
        }
        assert forall|i: int, j: int| 0 <= i <= j < t.len() implies t[i] <= t[j] by {
            let h = with_id(head, id);
            if j == t.len() - 1 && i < j {
                assert(h[i] <= h[h.len() - 1]);
            }
        }
    }
}

pub proof fn lemma_push_contains(s: Seq<u32>, a: u32, x: u32)
    ensures
        s.push(a).contains(x) <==> s.contains(x) || x == a,
{
    if s.contains(x) {
        let k = choose|k: int| 0 <= k < s.len() && s[k] == x;
        assert(s.push(a)[k] == x);
    }
    if x == a {
        assert(s.push(a)[s.len() as int] == x);
    }
}

/// Sorting keeps the ids and puts them in order.
pub proof fn law_sorted_ids(s: Seq<u32>)
    ensures
        ascending_ids(sorted_ids(s)),
        sorted_ids(s).len() == s.len(),
        forall|x: u32| #[trigger] sorted_ids(s).contains(x) <==> s.contains(x),
    decreases s.len(),
{
    if s.len() > 0 {
        let head = s.drop_last();
        law_sorted_ids(head);
        lemma_with_id_ascends(sorted_ids(head), s.last());
        assert forall|x: u32| #[trigger] sorted_ids(s).contains(x) <==> s.contains(x) by {
            lemma_push_contains(head, s.last(), x);
            assert(head.push(s.last()) =~= s);
        }
    }
}

} // verus!
