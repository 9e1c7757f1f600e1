//! What consumer groups are promised.

use super::groups::{
    assigned, chunk, count_of, expired, fence, group_at, group_or_new, group_room, groups_ok,
    heard, is_known, is_silent, joined, joined_id, left, left_error, lemma_chunk,
    lemma_chunk_rises, lemma_group_at, lemma_heard, lemma_member_at, lemma_rank, lemma_rank_some,
    lemma_subscriptions, member_at, ordered, rank, rebalanced, rebalances, share, shares,
    subscribed, subscriptions, topics_of, with_group, GroupInfo, MemberInfo,
};
use crate::order::{law_distinct_texts, lemma_text_push};
use crate::proto::ErrorCode;
use vstd::prelude::*;

verus! {

/// Whether a partition is in the chunk of member `i`.
pub open spec fn owns(ms: Seq<MemberInfo>, topic: Seq<char>, count: u32, i: int, p: u32) -> bool {
    let n = rank(ms, topic, ms.len() as int);
    let k = rank(ms, topic, i);
    &&& subscribed(ms[i], topic)
    &&& chunk(count as nat, n, k) <= p < chunk(count as nat, n, k + 1)
}

proof fn lemma_share(ms: Seq<MemberInfo>, topic: Seq<char>, count: u32, i: int, t: Seq<char>, p: u32)
    requires
        0 <= i < ms.len(),
    ensures
        share(ms, topic, count, i).contains((t, p)) <==> t == topic && owns(ms, topic, count, i, p),
{
    let s = share(ms, topic, count, i);
    if subscribed(ms[i], topic) {
        let n = rank(ms, topic, ms.len() as int);
        let k = rank(ms, topic, i);
        lemma_rank_some(ms, topic, i);
        lemma_chunk(count as nat, n, k);
        lemma_chunk(count as nat, n, k + 1);
        let lo = chunk(count as nat, n, k);
        if s.contains((t, p)) {
            let x = choose|x: int| 0 <= x < s.len() && s[x] == (t, p);
            assert((lo + x) as u32 == lo + x);
        }
        if t == topic && owns(ms, topic, count, i, p) {
            assert(s[p - lo] == (t, p));
        }
    }
}

proof fn lemma_shares(
    ms: Seq<MemberInfo>,
    topics: Seq<Seq<char>>,
    counts: Map<Seq<char>, u32>,
    i: int,
    t: Seq<char>,
    p: u32,
)
    requires
        0 <= i < ms.len(),
    ensures
        shares(ms, topics, counts, i).contains((t, p)) <==> topics.contains(t) && (count_of(
            counts,
            t,
        ) matches Some(count) && owns(ms, t, count, i, p)),
    decreases topics.len(),
{
    if topics.len() > 0 {
        let head = topics.drop_last();
        let last = topics.last();
        lemma_shares(ms, head, counts, i, t, p);
        lemma_text_push(head, last, t);
        assert(head.push(last) =~= topics);
        let a = shares(ms, head, counts, i);
        let b = match count_of(counts, last) {
            Some(count) => share(ms, last, count, i),
            None => Seq::empty(),
        };
        if let Some(count) = count_of(counts, last) {
            lemma_share(ms, last, count, i, t, p);
        }
        let s = a + b;
        if s.contains((t, p)) {
            let k = choose|k: int| 0 <= k < s.len() && s[k] == (t, p);
            if k < a.len() {
                assert(a[k] == (t, p));
            } else {
                assert(b[k - a.len()] == (t, p));
            }
        }
        if a.contains((t, p)) {
            let k = choose|k: int| 0 <= k < a.len() && a[k] == (t, p);
            assert(s[k] == (t, p));
        }
        if b.contains((t, p)) {
            let k = choose|k: int| 0 <= k < b.len() && b[k] == (t, p);
            assert(s[a.len() + k] == (t, p));
        }
    }
}

/// What a member is assigned: the partitions of its own chunk, of known topics
/// that it subscribes to, and nothing else.
pub proof fn law_assigned(
    ms: Seq<MemberInfo>,
    counts: Map<Seq<char>, u32>,
    i: int,
    t: Seq<char>,
    p: u32,
)
    requires
        0 <= i < ms.len(),
    ensures
        assigned(ms, counts)[i].assignment.contains((t, p)) <==> (count_of(counts, t) matches Some(
            count,
        ) && owns(ms, t, count, i, p)),
{
    lemma_shares(ms, topics_of(ms), counts, i, t, p);
    law_distinct_texts(subscriptions(ms, ms.len() as int));
    lemma_subscriptions(ms, ms.len() as int, t);
    if subscribed(ms[i], t) {
        assert(topics_of(ms).contains(t));
    }
}

/// No partition goes to two members.
pub proof fn law_assigned_once(
    ms: Seq<MemberInfo>,
    counts: Map<Seq<char>, u32>,
    i: int,
    j: int,
    t: Seq<char>,
    p: u32,
)
    requires
        0 <= i < j < ms.len(),
    ensures
        !(assigned(ms, counts)[i].assignment.contains((t, p)) && assigned(
            ms,
            counts,
        )[j].assignment.contains((t, p))),
{
    law_assigned(ms, counts, i, t, p);
    law_assigned(ms, counts, j, t, p);
    if let Some(count) = count_of(counts, t) {
        if owns(ms, t, count, i, p) && owns(ms, t, count, j, p) {
            let n = rank(ms, t, ms.len() as int);
            lemma_rank_some(ms, t, i);
            lemma_rank_some(ms, t, j);
            lemma_rank(ms, t, i + 1, j);
            lemma_chunk_rises(count as nat, n, rank(ms, t, i) + 1, rank(ms, t, j));
        }
    }
}

proof fn lemma_owner(ms: Seq<MemberInfo>, t: Seq<char>, count: u32, p: u32, m: int) -> (i: int)
    requires
        0 <= m <= ms.len(),
        rank(ms, t, ms.len() as int) > 0,
        p < chunk(count as nat, rank(ms, t, ms.len() as int), rank(ms, t, m)),
    ensures
        0 <= i < m,
        owns(ms, t, count, i, p),
    decreases m,
{
    let n = rank(ms, t, ms.len() as int);
    lemma_chunk(count as nat, n, 0);
    if m <= 0 {
        assert(false);
        0
    } else if p < chunk(count as nat, n, rank(ms, t, m - 1)) {
        lemma_owner(ms, t, count, p, m - 1)
    } else {
        m - 1
    }
}

/// Every partition of a known topic that anyone subscribes to goes to a member.
pub proof fn law_assigned_all(ms: Seq<MemberInfo>, counts: Map<Seq<char>, u32>, t: Seq<char>, p: u32)
    requires
        exists|i: int| 0 <= i < ms.len() && #[trigger] subscribed(ms[i], t),
        count_of(counts, t) matches Some(count) && p < count,
    ensures
        exists|i: int|
            0 <= i < ms.len() && (#[trigger] assigned(ms, counts)[i]).assignment.contains((t, p)),
{
    let s = choose|i: int| 0 <= i < ms.len() && #[trigger] subscribed(ms[i], t);
    let count = count_of(counts, t)->0;
    let n = rank(ms, t, ms.len() as int);
    lemma_rank_some(ms, t, s);
    lemma_chunk(count as nat, n, n);
    let i = lemma_owner(ms, t, count, p, ms.len() as int);
    law_assigned(ms, counts, i, t, p);
    assert(assigned(ms, counts)[i].assignment.contains((t, p)));
}

/// The members that subscribe to a topic get about as many of its partitions
/// each: two of them differ by one at most.
pub proof fn law_balanced(ms: Seq<MemberInfo>, topic: Seq<char>, count: u32, i: int, j: int)
    requires
        0 <= i < ms.len(),
        0 <= j < ms.len(),
        subscribed(ms[i], topic),
        subscribed(ms[j], topic),
    ensures
        share(ms, topic, count, i).len() <= share(ms, topic, count, j).len() + 1,
{
    let n = rank(ms, topic, ms.len() as int);
    lemma_rank_some(ms, topic, i);
    lemma_rank_some(ms, topic, j);
    lemma_chunk(count as nat, n, rank(ms, topic, i));
    lemma_chunk(count as nat, n, rank(ms, topic, j));
}

/// A rejoin with the same subscriptions changes neither the generation nor
/// anyone's assignment, whatever the topics' partitions have become.
pub proof fn law_rejoin(
    g: GroupInfo,
    next: u64,
    id: Seq<char>,
    timeout: u64,
    now_ms: u64,
    counts: Map<Seq<char>, u32>,
)
    requires
        is_known(g, id),
    ensures
        ({
            let topics = g.members[member_at(g.members, id)->0].topics;
            let h = joined(g, next, id, timeout, topics, now_ms, counts);
            &&& !rebalances(g, id, topics)
            &&& joined_id(g, next, id) == id
            &&& h.name == g.name
            &&& h.generation == g.generation
            &&& h.members.len() == g.members.len()
            &&& forall|i: int|
                0 <= i < g.members.len() ==> (#[trigger] h.members[i]).id == g.members[i].id
                    && h.members[i].assignment == g.members[i].assignment
        }),
{
    lemma_member_at(g.members, id);
}

/// A rejoin with the same subscriptions fences nobody: every heartbeat and every
/// commit is judged as before.
pub proof fn law_rejoin_fences_nobody(
    gs: Seq<GroupInfo>,
    name: Seq<char>,
    next: u64,
    id: Seq<char>,
    timeout: u64,
    now_ms: u64,
    counts: Map<Seq<char>, u32>,
    other: Seq<char>,
    generation: u64,
)
    requires
        group_at(gs, name) is Some,
        is_known(group_or_new(gs, name), id),
    ensures
        ({
            let g = group_or_new(gs, name);
            let topics = g.members[member_at(g.members, id)->0].topics;
            let h = joined(g, next, id, timeout, topics, now_ms, counts);
            fence(with_group(gs, h), name, other, generation) == fence(gs, name, other, generation)
        }),
{
    let g = group_or_new(gs, name);
    lemma_group_at(gs, name);
    law_rejoin(g, next, id, timeout, now_ms, counts);
    let topics = g.members[member_at(g.members, id)->0].topics;
    let h = joined(g, next, id, timeout, topics, now_ms, counts);
    lemma_group_at_update(gs, group_at(gs, name)->0, h);
    lemma_same_ids(g.members, h.members, other);
}

proof fn lemma_same_ids(ms: Seq<MemberInfo>, ns: Seq<MemberInfo>, id: Seq<char>)
    requires
        ms.len() == ns.len(),
        forall|i: int| 0 <= i < ms.len() ==> (#[trigger] ns[i]).id == ms[i].id,
    ensures
        member_at(ms, id) == member_at(ns, id),
    decreases ms.len(),
{
    if ms.len() > 0 {
        assert(ns.last().id == ms.last().id);
        lemma_same_ids(ms.drop_last(), ns.drop_last(), id);
    }
}

/// Once a group has been rebalanced, whoever still speaks in its old
/// generation is fenced.
pub proof fn law_old_generation_fenced(
    gs: Seq<GroupInfo>,
    g: GroupInfo,
    ms: Seq<MemberInfo>,
    counts: Map<Seq<char>, u32>,
    id: Seq<char>,
)
    requires
        g.generation < u64::MAX,
        group_at(gs, g.name) is Some,
    ensures
        fence(with_group(gs, rebalanced(g, ms, counts)), g.name, id, g.generation)
            != ErrorCode::NoError,
{
    let h = rebalanced(g, ms, counts);
    let r = with_group(gs, h);
    lemma_group_at(gs, g.name);
    lemma_group_at(r, g.name);
    let i = group_at(gs, g.name)->0;
    assert(r[i].name == g.name);
    lemma_group_at_update(gs, i, h);
}

proof fn lemma_group_at_update(gs: Seq<GroupInfo>, i: int, h: GroupInfo)
    requires
        group_at(gs, h.name) == Some(i),
        0 <= i < gs.len(),
        gs[i].name == h.name,
    ensures
        group_at(gs.update(i, h), h.name) == Some(i),
    decreases gs.len(),
{
    if gs.last().name != h.name {
        let head = gs.drop_last();
        lemma_group_at(head, h.name);
        assert(gs.update(i, h).drop_last() =~= head.update(i, h));
        lemma_group_at_update(head, i, h);
    }
}

/// A member that left is unknown, in every generation.
pub proof fn law_left_unknown(
    gs: Seq<GroupInfo>,
    name: Seq<char>,
    id: Seq<char>,
    counts: Map<Seq<char>, u32>,
    generation: u64,
)
    requires
        group_at(gs, name) matches Some(i) && ordered(gs[i].members) && member_at(
            gs[i].members,
            id,
        ) is Some,
    ensures
        fence(left(gs, name, id, counts), name, id, generation) == ErrorCode::UnknownMember,
{
    lemma_group_at(gs, name);
    let i = group_at(gs, name)->0;
    let ms = gs[i].members;
    lemma_member_at(ms, id);
    let k = member_at(ms, id)->0;
    let h = rebalanced(gs[i], ms.remove(k), counts);
    lemma_group_at_update(gs, i, h);
    lemma_member_at(h.members, id);
    if let Some(j) = member_at(h.members, id) {
        let p = if j < k {
            j
        } else {
            j + 1
        };
        assert(h.members[j].id == ms[p].id);
        if p < k {
            assert(ms[p].id != ms[k].id);
        } else {
            assert(ms[k].id != ms[p].id);
        }
    }
}

/// A leave is refused exactly where the group or the member is unknown, and
/// changes nothing there. Else the member is gone, so that a second leave is
/// refused, the group is one generation on, and the others share its topics
/// anew.
pub proof fn law_leave(
    gs: Seq<GroupInfo>,
    name: Seq<char>,
    id: Seq<char>,
    counts: Map<Seq<char>, u32>,
)
    requires
        groups_ok(gs),
        left_error(gs, name, id) == ErrorCode::NoError ==> group_room(group_or_new(gs, name)),
    ensures
        ({
            let g = group_or_new(gs, name);
            let hs = left(gs, name, id, counts);
            let h = group_or_new(hs, name);
            if group_at(gs, name) is None || member_at(g.members, id) is None {
                left_error(gs, name, id) == ErrorCode::UnknownMember && hs == gs
            } else {
                &&& left_error(gs, name, id) == ErrorCode::NoError
                &&& left_error(hs, name, id) == ErrorCode::UnknownMember
                &&& h.generation == g.generation + 1
                &&& h.members == assigned(g.members.remove(member_at(g.members, id)->0), counts)
            }
        }),
{
    lemma_group_at(gs, name);
    if let Some(i) = group_at(gs, name) {
        lemma_member_at(gs[i].members, id);
        if let Some(k) = member_at(gs[i].members, id) {
            law_left_unknown(gs, name, id, counts, 0);
            let h = rebalanced(gs[i], gs[i].members.remove(k), counts);
            lemma_group_at_update(gs, i, h);
        }
    }
}

/// Expiry evicts exactly the silent members.
pub proof fn law_expired(g: GroupInfo, now_ms: u64, counts: Map<Seq<char>, u32>, i: int)
    requires
        ordered(g.members),
        0 <= i < g.members.len(),
    ensures
        member_at(expired(g, now_ms, counts).members, g.members[i].id) is Some <==> !is_silent(
            g.members[i],
            now_ms,
        ),
{
    let ms = g.members;
    let id = ms[i].id;
    let r = expired(g, now_ms, counts).members;
    let h = heard(ms, now_ms);
    lemma_heard(ms, now_ms);
    lemma_member_at(r, id);
    lemma_heard_member(ms, now_ms, i);
    assert(r.len() == h.len());
    assert forall|k: int| 0 <= k < r.len() implies (#[trigger] r[k]).id == h[k].id by {
    }
    if !is_silent(ms[i], now_ms) {
        let k = choose|k: int| 0 <= k < h.len() && h[k] == ms[i];
        assert(r[k].id == id);
    } else if let Some(k) = member_at(r, id) {
        assert(r[k].id == h[k].id);
        assert(ms.contains(h[k]));
        let j = choose|j: int| 0 <= j < ms.len() && ms[j] == h[k];
        if j < i {
            assert(ms[j].id != ms[i].id);
        } else if j > i {
            assert(ms[i].id != ms[j].id);
        }
        lemma_heard_speaks(ms, now_ms, k);
    }
}

proof fn lemma_heard_member(ms: Seq<MemberInfo>, now_ms: u64, i: int)
    requires
        0 <= i < ms.len(),
    ensures
        !is_silent(ms[i], now_ms) ==> heard(ms, now_ms).contains(ms[i]),
    decreases ms.len(),
{
    let r = heard(ms, now_ms);
    if !is_silent(ms[i], now_ms) {
        if i == ms.len() - 1 {
            assert(r[r.len() - 1] == ms[i]);
        } else {
            let head = ms.drop_last();
            lemma_heard_member(head, now_ms, i);
            let h = heard(head, now_ms);
            let k = choose|k: int| 0 <= k < h.len() && h[k] == head[i];
            assert(r[k] == ms[i]);
        }
    }
}

proof fn lemma_heard_speaks(ms: Seq<MemberInfo>, now_ms: u64, k: int)
    requires
        0 <= k < heard(ms, now_ms).len(),
    ensures
        !is_silent(heard(ms, now_ms)[k], now_ms),
    decreases ms.len(),
{
    if ms.len() > 0 {
        let h = heard(ms.drop_last(), now_ms);
        if k < h.len() {
            lemma_heard_speaks(ms.drop_last(), now_ms, k);
        }
    }
}

} // verus!
