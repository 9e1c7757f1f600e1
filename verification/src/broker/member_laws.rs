//! What joining, staying in and falling out of a consumer group does.

use super::group_laws::law_assigned;
use super::groups::{
    all_expired, assigned, count_map, count_of, expired, fence, group_at, group_or_new, groups_ok,
    heard, is_known, joined, joined_id, lemma_chunk, lemma_chunk_rises, lemma_group_at, lemma_heard,
    lemma_member_at, lemma_rank, lemma_rank_some, member_at, minted, ordered, rank, rebalanced,
    share, shares, silent_count, subscriptions, topics_of, with_group, with_member, GroupInfo,
    MemberInfo,
};
use super::{meta_counts, topic_counts, topics_rise};
use crate::order::lemma_push_has;
use crate::proto::{ErrorCode, TopicMeta};
use crate::text::{decimal, law_parse_decimal};
use vstd::prelude::*;

verus! {

/// A request passes the fence of its group exactly where it names a member of
/// it and the present generation; a member with another generation is told so,
/// and anyone else is unknown.
pub proof fn law_fence(gs: Seq<GroupInfo>, name: Seq<char>, id: Seq<char>, generation: u64)
    requires
        groups_ok(gs),
    ensures
        ({
            let e = fence(gs, name, id, generation);
            let member = exists|i: int, k: int|
                0 <= i < gs.len() && gs[i].name == name && 0 <= k < gs[i].members.len() && (
                #[trigger] gs[i].members[k]).id == id;
            let current = exists|i: int|
                0 <= i < gs.len() && (#[trigger] gs[i]).name == name && gs[i].generation
                    == generation;
            &&& e == ErrorCode::NoError <==> member && current
            &&& e == ErrorCode::StaleGeneration <==> member && !current
            &&& e == ErrorCode::UnknownMember <==> !member
        }),
{
    lemma_group_at(gs, name);
    if let Some(i) = group_at(gs, name) {
        lemma_member_at(gs[i].members, id);
        assert forall|j: int| 0 <= j < gs.len() && (#[trigger] gs[j]).name == name implies j
            == i by {
            if j < i {
                assert(gs[j].name != gs[i].name);
            } else if i < j {
                assert(gs[i].name != gs[j].name);
            }
        }
        if let Some(k) = member_at(gs[i].members, id) {
            assert(gs[i].members[k].id == id);
        }
    }
}

/// What is put in for one group is what is found there, and no other group
/// changes.
pub proof fn law_groups_apart(gs: Seq<GroupInfo>, g: GroupInfo, other: Seq<char>)
    requires
        groups_ok(gs),
        other != g.name,
    ensures
        group_or_new(with_group(gs, g), g.name) == g,
        group_or_new(with_group(gs, g), other) == group_or_new(gs, other),
{
    let hs = with_group(gs, g);
    lemma_group_at(gs, g.name);
    lemma_group_at(gs, other);
    lemma_group_at(hs, g.name);
    lemma_group_at(hs, other);
    match group_at(gs, g.name) {
        Some(i) => {
            assert(hs[i] == g);
            assert forall|j: int| 0 <= j < gs.len() && j != i implies (#[trigger] hs[j]).name
                != g.name by {
                if j < i {
                    assert(gs[j].name != gs[i].name);
                } else {
                    assert(gs[i].name != gs[j].name);
                }
            }
        },
        None => {
            assert(hs[gs.len() as int] == g);
            assert forall|j: int| 0 <= j < gs.len() implies (#[trigger] hs[j]).name != g.name by {
                assert(hs[j] == gs[j]);
            }
        },
    }
    if let Some(j) = group_at(gs, other) {
        assert(hs[j] == gs[j]);
        let k = group_at(hs, other)->0;
        assert(group_at(hs, other) is Some);
        if k < j {
            assert(gs[k] == hs[k]);
            assert(gs[k].name != gs[j].name);
        } else if j < k {
            assert(k < gs.len());
            assert(gs[k] == hs[k]);
            assert(gs[j].name != gs[k].name);
        }
    } else if let Some(k) = group_at(hs, other) {
        assert(k < gs.len());
        assert(gs[k] == hs[k]);
    }
}

/// Ids that are minted one after the other are different.
pub proof fn law_minted_apart(a: u64, b: u64)
    requires
        a != b,
    ensures
        minted(a) != minted(b),
        minted(a).len() > 0,
{
    law_parse_decimal(a as nat, u64::MAX as nat);
    law_parse_decimal(b as nat, u64::MAX as nat);
    let x = minted(a);
    let y = minted(b);
    let k = "m-"@.len() as int;
    assert(x.skip(k) =~= decimal(a as nat));
    assert(y.skip(k) =~= decimal(b as nat));
    crate::text::lemma_decimal_digits(a as nat);
}

proof fn lemma_with_member_contains(ms: Seq<MemberInfo>, m: MemberInfo)
    requires
        forall|i: int| 0 <= i < ms.len() ==> (#[trigger] ms[i]).id != m.id,
    ensures
        with_member(ms, m).len() == ms.len() + 1,
        forall|x: MemberInfo| #[trigger]
            with_member(ms, m).contains(x) <==> x == m || ms.contains(x),
    decreases ms.len(),
{
    let out = with_member(ms, m);
    if ms.len() > 0 {
        let head = ms.drop_last();
        assert(ms =~= head.push(ms.last()));
        assert(ms.last() == ms[ms.len() - 1]);
        assert forall|i: int| 0 <= i < head.len() implies (#[trigger] head[i]).id != m.id by {
            assert(head[i] == ms[i]);
        }
        lemma_with_member_contains(head, m);
        assert forall|x: MemberInfo| #[trigger] out.contains(x) <==> x == m || ms.contains(x) by {
            lemma_push_has(head, ms.last(), x);
            lemma_push_has(ms, m, x);
            lemma_push_has(with_member(head, m), ms.last(), x);
        }
    } else {
        assert forall|x: MemberInfo| #[trigger] out.contains(x) <==> x == m || ms.contains(x) by {
            assert(seq![m] =~= ms.push(m));
            lemma_push_has(ms, m, x);
        }
    }
}

/// A member that the group does not know comes in under a new id, with what it
/// asked for and its clock at now; the others keep what they asked for; and the
/// group goes to its next generation, so that every member fetches its share
/// again.
pub proof fn law_join(
    g: GroupInfo,
    next: u64,
    id: Seq<char>,
    timeout: u64,
    topics: Seq<Seq<char>>,
    now_ms: u64,
    counts: Map<Seq<char>, u32>,
)
    requires
        id.len() == 0 || forall|i: int|
            0 <= i < g.members.len() ==> (#[trigger] g.members[i]).id != id,
        forall|i: int| 0 <= i < g.members.len() ==> (#[trigger] g.members[i]).id != minted(next),
        g.generation < u64::MAX,
    ensures
        ({
            let h = joined(g, next, id, timeout, topics, now_ms, counts);
            &&& joined_id(g, next, id) == minted(next)
            &&& h.name == g.name
            &&& h.generation == g.generation + 1
            &&& h.members.len() == g.members.len() + 1
            &&& exists|k: int|
                0 <= k < h.members.len() && (#[trigger] h.members[k]).id == minted(next)
                    && h.members[k].topics == topics && h.members[k].timeout == timeout
                    && h.members[k].last == now_ms
            &&& forall|i: int|
                0 <= i < g.members.len() ==> exists|k: int|
                    0 <= k < h.members.len() && same_but_share(
                        #[trigger] h.members[k],
                        #[trigger] g.members[i],
                    )
        }),
{
    lemma_member_at(g.members, id);
    if id.len() > 0 && member_at(g.members, id) is Some {
        assert(g.members[member_at(g.members, id)->0].id != id);
    }
    let m = MemberInfo {
        id: minted(next),
        topics,
        timeout,
        last: now_ms,
        assignment: Seq::empty(),
    };
    let ms = with_member(g.members, m);
    lemma_with_member_contains(g.members, m);
    let h = joined(g, next, id, timeout, topics, now_ms, counts);
    assert(h == rebalanced(g, ms, counts));
    assert(ms.contains(m));
    let k = choose|k: int| 0 <= k < ms.len() && ms[k] == m;
    assert(h.members[k].id == minted(next));
    assert forall|i: int| 0 <= i < g.members.len() implies exists|k: int|
        0 <= k < h.members.len() && same_but_share(
            #[trigger] h.members[k],
            #[trigger] g.members[i],
        ) by {
        assert(g.members.contains(g.members[i]));
        assert(ms.contains(g.members[i]));
        let k = choose|k: int| 0 <= k < ms.len() && ms[k] == g.members[i];
        assert(same_but_share(h.members[k], g.members[i]));
    }
}

/// One member before and after a rebalance: its share may be another.
pub open spec fn same_but_share(m: MemberInfo, n: MemberInfo) -> bool {
    m.id == n.id && m.topics == n.topics && m.timeout == n.timeout && m.last == n.last
}

/// A member that joins again keeps its id, and its clock and timeout are what
/// it just said. The group goes to its next generation exactly where the member
/// asks for other topics than before.
pub proof fn law_join_again(
    g: GroupInfo,
    next: u64,
    k: int,
    timeout: u64,
    topics: Seq<Seq<char>>,
    now_ms: u64,
    counts: Map<Seq<char>, u32>,
)
    requires
        ordered(g.members),
        0 <= k < g.members.len(),
        g.members[k].id.len() > 0,
        g.generation < u64::MAX,
    ensures
        ({
            let id = g.members[k].id;
            let h = joined(g, next, id, timeout, topics, now_ms, counts);
            &&& joined_id(g, next, id) == id
            &&& h.name == g.name
            &&& h.generation == (if topics == g.members[k].topics {
                g.generation as int
            } else {
                g.generation + 1
            })
            &&& h.members.len() == g.members.len()
            &&& h.members[k].id == id
            &&& h.members[k].topics == topics
            &&& h.members[k].timeout == timeout
            &&& h.members[k].last == now_ms
            &&& forall|i: int|
                0 <= i < g.members.len() && i != k ==> same_but_share(
                    #[trigger] h.members[i],
                    g.members[i],
                )
        }),
{
    lemma_member_at(g.members, g.members[k].id);
    let i = member_at(g.members, g.members[k].id);
    if i is None {
        assert(g.members[k].id != g.members[k].id);
    } else if i->0 < k {
        assert(g.members[i->0].id != g.members[k].id);
    } else if k < i->0 {
        assert(g.members[k].id != g.members[i->0].id);
    }
}

proof fn lemma_heard_filter(ms: Seq<MemberInfo>, now_ms: u64)
    ensures
        heard(ms, now_ms) == ms.filter(|m: MemberInfo| now_ms - m.last <= m.timeout),
    decreases ms.len(),
{
    reveal(Seq::filter);
    if ms.len() > 0 {
        lemma_heard_filter(ms.drop_last(), now_ms);
    }
}

/// A group loses exactly the members that were silent for longer than their
/// timeout, and goes to its next generation exactly where it lost one; the
/// others stay as they were but for their shares.
pub proof fn law_silent_fall_out(g: GroupInfo, now_ms: u64, counts: Map<Seq<char>, u32>)
    requires
        g.generation < u64::MAX,
    ensures
        ({
            let h = expired(g, now_ms, counts);
            let stay = g.members.filter(|m: MemberInfo| now_ms - m.last <= m.timeout);
            &&& h.name == g.name
            &&& h.members.len() == stay.len()
            &&& forall|i: int|
                0 <= i < stay.len() ==> same_but_share(#[trigger] h.members[i], stay[i])
            &&& h.generation == (if stay.len() == g.members.len() {
                g.generation as int
            } else {
                g.generation + 1
            })
            &&& stay.len() == g.members.len() ==> h == g
        }),
{
    lemma_heard_filter(g.members, now_ms);
    lemma_heard(g.members, now_ms);
}

/// How many members one sweep of a group drops.
pub proof fn law_silent_counted(g: GroupInfo, now_ms: u64)
    ensures
        silent_count(seq![g], now_ms) == g.members.len() - g.members.filter(
            |m: MemberInfo| now_ms - m.last <= m.timeout,
        ).len(),
{
    lemma_heard_filter(g.members, now_ms);
    lemma_heard(g.members, now_ms);
    assert(seq![g].drop_last() =~= Seq::<GroupInfo>::empty());
    reveal_with_fuel(silent_count, 2);
}

/// The partitions of a topic go to its subscribers in ranges: members in order
/// get ranges in order, and where the ranges cannot be equal the earlier members
/// have the one more.
pub proof fn law_ranges(
    ms: Seq<MemberInfo>,
    counts: Map<Seq<char>, u32>,
    topic: Seq<char>,
    i: int,
    j: int,
    p: u32,
    q: u32,
)
    requires
        0 <= i < j < ms.len(),
        assigned(ms, counts)[i].assignment.contains((topic, p)),
        assigned(ms, counts)[j].assignment.contains((topic, q)),
    ensures
        p < q,
        share(ms, topic, counts[topic], i).len() >= share(ms, topic, counts[topic], j).len(),
{
    law_assigned(ms, counts, i, topic, p);
    law_assigned(ms, counts, j, topic, q);
    let count = counts[topic];
    let n = rank(ms, topic, ms.len() as int);
    let a = rank(ms, topic, i);
    let b = rank(ms, topic, j);
    lemma_rank_some(ms, topic, i);
    lemma_rank_some(ms, topic, j);
    assert(rank(ms, topic, i + 1) == a + 1);
    lemma_rank(ms, topic, i + 1, j);
    lemma_chunk_rises(count as nat, n, a + 1, b);
    lemma_chunk(count as nat, n, a);
    lemma_chunk(count as nat, n, b);
}

/// The partition counts that shares are made from are those of the topics: on a
/// broker of its own its topics, in a cluster those of the metadata.
pub proof fn law_counts(ts: Seq<(Seq<char>, u32)>, i: int)
    requires
        topics_rise(ts),
        0 <= i < ts.len(),
    ensures
        topic_counts(ts).contains_key(ts[i].0),
        topic_counts(ts)[ts[i].0] == ts[i].1,
    decreases ts.len(),
{
    if i < ts.len() - 1 {
        let head = ts.drop_last();
        assert(ts[i].0 != ts[ts.len() - 1].0);
        assert forall|a: int, b: int| 0 <= a < b < head.len() implies crate::order::text_le(
            (#[trigger] head[a]).0,
            (#[trigger] head[b]).0,
        ) && head[a].0 != head[b].0 by {
            assert(head[a] == ts[a] && head[b] == ts[b]);
        }
        law_counts(head, i);
    }
}

/// In a cluster the shares of a topic are made from the first entry of its name
/// in the metadata.
pub proof fn law_meta_counts(ts: Seq<TopicMeta>, i: int)
    requires
        0 <= i < ts.len(),
        forall|j: int| 0 <= j < i ==> (#[trigger] ts[j]).name@ != ts[i].name@,
        ts[i].partitions@.len() <= u32::MAX,
    ensures
        meta_counts(ts).contains_key(ts[i].name@),
        meta_counts(ts)[ts[i].name@] == ts[i].partitions@.len(),
    decreases i,
{
    if i > 0 {
        let tail = ts.skip(1);
        assert(ts[0].name@ != ts[i].name@);
        assert forall|j: int| 0 <= j < i - 1 implies (#[trigger] tail[j]).name@ != tail[i
            - 1].name@ by {
            assert(tail[j] == ts[j + 1]);
        }
        law_meta_counts(tail, i - 1);
    }
}

/// A sweep goes over every group.
pub proof fn law_all_swept(gs: Seq<GroupInfo>, now_ms: u64, counts: Map<Seq<char>, u32>, i: int)
    requires
        0 <= i < gs.len(),
        gs[i].generation < u64::MAX,
    ensures
        ({
            let h = all_expired(gs, now_ms, counts)[i];
            let stay = gs[i].members.filter(|m: MemberInfo| now_ms - m.last <= m.timeout);
            &&& all_expired(gs, now_ms, counts).len() == gs.len()
            &&& h.name == gs[i].name
            &&& h.members.len() == stay.len()
            &&& h.generation == (if stay.len() == gs[i].members.len() {
                gs[i].generation as int
            } else {
                gs[i].generation + 1
            })
        }),
{
    law_silent_fall_out(gs[i], now_ms, counts);
}

/// The counts that come in a list are those of its names.
pub proof fn law_count_map(counts: Seq<(String, u32)>, i: int)
    requires
        0 <= i < counts.len(),
        forall|j: int| i < j < counts.len() ==> (#[trigger] counts[j]).0@ != counts[i].0@,
    ensures
        count_map(counts).contains_key(counts[i].0@),
        count_map(counts)[counts[i].0@] == counts[i].1,
    decreases counts.len(),
{
    if i < counts.len() - 1 {
        let head = counts.drop_last();
        assert(counts[counts.len() - 1].0@ != counts[i].0@);
        assert forall|j: int| i < j < head.len() implies (#[trigger] head[j]).0@ != head[i].0@ by {
            assert(head[j] == counts[j]);
        }
        law_count_map(head, i);
    }
}

proof fn lemma_rank_same(ms: Seq<MemberInfo>, ns: Seq<MemberInfo>, topic: Seq<char>, i: int)
    requires
        ms.len() == ns.len(),
        i <= ms.len(),
        forall|j: int| 0 <= j < ms.len() ==> (#[trigger] ms[j]).topics == ns[j].topics,
    ensures
        rank(ms, topic, i) == rank(ns, topic, i),
    decreases i,
{
    if i > 0 {
        lemma_rank_same(ms, ns, topic, i - 1);
        assert(ms[i - 1].topics == ns[i - 1].topics);
    }
}

proof fn lemma_subscriptions_same(ms: Seq<MemberInfo>, ns: Seq<MemberInfo>, n: int)
    requires
        ms.len() == ns.len(),
        n <= ms.len(),
        forall|j: int| 0 <= j < ms.len() ==> (#[trigger] ms[j]).topics == ns[j].topics,
    ensures
        subscriptions(ms, n) == subscriptions(ns, n),
    decreases n,
{
    if n > 0 {
        lemma_subscriptions_same(ms, ns, n - 1);
        assert(ms[n - 1].topics == ns[n - 1].topics);
    }
}

proof fn lemma_shares_same(
    ms: Seq<MemberInfo>,
    ns: Seq<MemberInfo>,
    topics: Seq<Seq<char>>,
    counts: Map<Seq<char>, u32>,
    i: int,
)
    requires
        ms.len() == ns.len(),
        0 <= i < ms.len(),
        forall|j: int| 0 <= j < ms.len() ==> (#[trigger] ms[j]).topics == ns[j].topics,
    ensures
        shares(ms, topics, counts, i) == shares(ns, topics, counts, i),
    decreases topics.len(),
{
    if topics.len() > 0 {
        let t = topics.last();
        lemma_shares_same(ms, ns, topics.drop_last(), counts, i);
        lemma_rank_same(ms, ns, t, ms.len() as int);
        lemma_rank_same(ms, ns, t, i);
        assert(ms[i].topics == ns[i].topics);
        if let Some(count) = count_of(counts, t) {
            assert(share(ms, t, count, i) =~= share(ns, t, count, i));
        }
    }
}

/// After a rebalance every member has the share that the group, as it is now,
/// gives it: to share it out again would change nothing.
pub proof fn law_shares_settle(g: GroupInfo, ms: Seq<MemberInfo>, counts: Map<Seq<char>, u32>)
    requires
        g.generation < u64::MAX,
    ensures
        ({
            let h = rebalanced(g, ms, counts);
            &&& h.name == g.name
            &&& h.generation == g.generation + 1
            &&& h.members.len() == ms.len()
            &&& assigned(h.members, counts) == h.members
            &&& forall|i: int| 0 <= i < ms.len() ==> same_but_share(#[trigger] h.members[i], ms[i])
        }),
{
    let h = rebalanced(g, ms, counts);
    let ns = h.members;
    let again = assigned(ns, counts);
    assert forall|j: int| 0 <= j < ms.len() implies (#[trigger] ms[j]).topics == ns[j].topics by {}
    lemma_subscriptions_same(ms, ns, ms.len() as int);
    assert forall|i: int| 0 <= i < ns.len() implies #[trigger] again[i] == ns[i] by {
        lemma_shares_same(ms, ns, topics_of(ms), counts, i);
    }
    assert(again =~= ns);
}

/// Whoever joins anew or with other topics, and whoever falls out, leaves a
/// group whose members all have their shares of it as it is then.
pub proof fn law_join_shares(
    g: GroupInfo,
    next: u64,
    id: Seq<char>,
    timeout: u64,
    topics: Seq<Seq<char>>,
    now_ms: u64,
    counts: Map<Seq<char>, u32>,
)
    requires
        g.generation < u64::MAX,
    ensures
        ({
            let h = joined(g, next, id, timeout, topics, now_ms, counts);
            h.generation != g.generation ==> assigned(h.members, counts) == h.members
        }),
        ({
            let h = expired(g, now_ms, counts);
            h.generation != g.generation ==> assigned(h.members, counts) == h.members
        }),
{
    if is_known(g, id) {
        let i = member_at(g.members, id)->0;
        let m = g.members[i];
        let ms = g.members.update(i, MemberInfo { topics, timeout, last: now_ms, ..m });
        law_shares_settle(g, ms, counts);
    } else {
        let m = MemberInfo {
            id: minted(next),
            topics,
            timeout,
            last: now_ms,
            assignment: Seq::empty(),
        };
        law_shares_settle(g, with_member(g.members, m), counts);
    }
    law_shares_settle(g, heard(g.members, now_ms), counts);
}

} // verus!
