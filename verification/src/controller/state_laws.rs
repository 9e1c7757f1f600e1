//! What each change of the controller's state does to brokers and partitions.

use super::laws::{law_election, law_snapshot_roundtrip, lemma_living_rise, lemma_mod_distinct};
use super::serve::{serves, Served};
use super::snapshot::{
    forgotten, gathered, gathered_brokers, host_list, host_vals, named_list, named_vals, part_list,
    part_vals, snapshot_bytes, snapshot_row, snapshot_says, snapshot_vals,
};
use super::{
    alter_error, altered, any_dead, as_leader, at_least_one, broker_at, create_error, created,
    elected, elected_parts, elected_topic, elected_topics, epochs_left, first_alive, handles,
    heartbeaten, is_alive, lemma_broker_at, lemma_no_broker, lemma_topic_at, living, living_ids,
    meta_says, new_part, new_parts, part_says, parts_change, parts_view, placement, registered,
    settled, state_ok, state_room, swept, swept_brokers, topic_at, topic_says, topics_change,
    topics_view, with_broker, with_topic, BrokerInfo, BrokerState, PartitionInfo, PartitionState,
    State, StateView, TopicInfo, TopicState,
};
use crate::codec::bits32;
use crate::order::lemma_push_has;
use crate::proto::layout_laws::{law_requests_apart, lemma_ids_apart, same_request};
use crate::proto::request::{law_request_roundtrip, request_tag, request_vals};
use crate::proto::response::{response_tag, response_vals};
use crate::proto::schema::{fits, parse};
use crate::proto::{frame, ClusterMeta, ErrorCode, Request, Response};
use vstd::prelude::*;

verus! {

/// Every partition is led by a living broker, or is offline because no member
/// of its ISR lives.
pub open spec fn all_served(s: StateView) -> bool {
    forall|i: int, k: int|
        0 <= i < s.topics.len() && 0 <= k < s.topics[i].parts.len() ==> {
            let p = #[trigger] s.topics[i].parts[k];
            ||| p.leader >= 0 && is_alive(s.brokers, p.leader as u32)
            ||| p.leader == -1 && forall|m: int|
                0 <= m < p.isr.len() ==> !is_alive(s.brokers, #[trigger] p.isr[m])
        }
}

/// The ids of every ISR fit the signed field that names a leader.
pub open spec fn ids_signed(ts: Seq<TopicInfo>) -> bool {
    forall|i: int, k: int, m: int|
        0 <= i < ts.len() && 0 <= k < ts[i].parts.len() && 0 <= m < ts[i].parts[k].isr.len()
            ==> (#[trigger] ts[i].parts[k].isr[m]) <= i32::MAX
}

/// The same topics and partitions, where a partition whose leader lives is as
/// it was, none goes back in its epochs and none moves to other replicas.
pub open spec fn only_headless_moved(
    before: Seq<TopicInfo>,
    after: Seq<TopicInfo>,
    bs: Seq<BrokerInfo>,
) -> bool {
    &&& after.len() == before.len()
    &&& forall|i: int|
        0 <= i < before.len() ==> (#[trigger] after[i]).name == before[i].name
            && after[i].parts.len() == before[i].parts.len()
    &&& forall|i: int, k: int|
        0 <= i < before.len() && 0 <= k < before[i].parts.len() ==> {
            let p = before[i].parts[k];
            let q = #[trigger] after[i].parts[k];
            &&& q.replicas == p.replicas
            &&& p.leader >= 0 && is_alive(bs, p.leader as u32) ==> q == p
            &&& !(p.leader >= 0 && is_alive(bs, p.leader as u32)) ==> q.epoch == (if q.leader
                == -1 {
                p.epoch as int
            } else {
                p.epoch + 1
            })
        }
}

proof fn lemma_parts_change(ps: Seq<PartitionInfo>, bs: Seq<BrokerInfo>)
    ensures
        parts_change(ps, bs) <==> elected_parts(ps, bs) != ps,
    decreases ps.len(),
{
    let out = elected_parts(ps, bs);
    if ps.len() == 0 {
        assert(out =~= ps);
    } else {
        let head = ps.drop_last();
        lemma_parts_change(head, bs);
        assert(elected_parts(head, bs) =~= out.drop_last());
        assert(out.last() == elected(ps.last(), bs));
        if elected_parts(head, bs) == head && elected(ps.last(), bs) == ps.last() {
            assert(out =~= out.drop_last().push(out.last()));
            assert(ps =~= head.push(ps.last()));
        }
    }
}

proof fn lemma_topics_change(ts: Seq<TopicInfo>, bs: Seq<BrokerInfo>)
    ensures
        topics_change(ts, bs) <==> elected_topics(ts, bs) != ts,
    decreases ts.len(),
{
    let out = elected_topics(ts, bs);
    if ts.len() == 0 {
        assert(out =~= ts);
    } else {
        let head = ts.drop_last();
        lemma_topics_change(head, bs);
        lemma_parts_change(ts.last().parts, bs);
        assert(elected_topics(head, bs) =~= out.drop_last());
        assert(out.last() == elected_topic(ts.last(), bs));
        if elected_topics(head, bs) == head && out.last() == ts.last() {
            assert(out =~= out.drop_last().push(out.last()));
            assert(ts =~= head.push(ts.last()));
        }
    }
}

proof fn lemma_settled(s: StateView)
    requires
        epochs_left(s.topics),
        ids_signed(s.topics),
    ensures
        all_served(settled(s)),
        only_headless_moved(s.topics, settled(s).topics, s.brokers),
        settled(s).brokers == s.brokers,
        settled(s).version == s.version,
{
    let t = settled(s);
    assert forall|i: int, k: int| 0 <= i < s.topics.len() && 0 <= k < s.topics[i].parts.len() implies {
        let p = s.topics[i].parts[k];
        let q = #[trigger] t.topics[i].parts[k];
        &&& q == elected(p, s.brokers)
        &&& q.leader >= 0 && is_alive(s.brokers, q.leader as u32) || q.leader == -1 && forall|
            m: int,
        |
            0 <= m < q.isr.len() ==> !is_alive(s.brokers, #[trigger] q.isr[m])
        &&& p.leader >= 0 && is_alive(s.brokers, p.leader as u32) ==> q == p
        &&& !(p.leader >= 0 && is_alive(s.brokers, p.leader as u32)) ==> q.epoch == (if q.leader
            == -1 {
            p.epoch as int
        } else {
            p.epoch + 1
        })
    } by {
        let p = s.topics[i].parts[k];
        law_election(p, s.brokers);
        if let Some(id) = first_alive(p.isr, s.brokers) {
            if p.isr.contains(id) {
                let m = choose|m: int| 0 <= m < p.isr.len() && p.isr[m] == id;
                assert(s.topics[i].parts[k].isr[m] <= i32::MAX);
                assert(as_leader(id) == id);
            }
        }
    }
}

/// A registered broker is alive at the addresses it gave, and the other brokers
/// are as they were. With the broker back, every partition is led by a living
/// broker again or has none in its ISR; one whose leader lived is left alone.
/// The version rises by one exactly when something that others read changed.
pub proof fn law_registered(s: StateView, id: u32, addr: Seq<char>, peer: Seq<char>, now_ms: u64)
    requires
        state_ok(s),
        state_room(s),
        ids_signed(s.topics),
    ensures
        ({
            let t = registered(s, id, addr, peer, now_ms);
            let b = BrokerInfo { id, addr, peer, alive: true, last: now_ms };
            let same = exists|x: BrokerInfo| #[trigger]
                s.brokers.contains(x) && x.id == id && x.alive && x.addr == addr && x.peer == peer;
            &&& is_alive(t.brokers, id)
            &&& forall|x: BrokerInfo| #[trigger]
                t.brokers.contains(x) <==> x == b || (x.id != id && s.brokers.contains(x))
            &&& all_served(t)
            &&& only_headless_moved(s.topics, t.topics, t.brokers)
            &&& t.version == (if same && t.topics == s.topics {
                s.version as int
            } else {
                s.version + 1
            })
        }),
{
    let b = BrokerInfo { id, addr, peer, alive: true, last: now_ms };
    let with = StateView { brokers: with_broker(s.brokers, b), ..s };
    lemma_with_contains(s.brokers, b);
    lemma_settled(with);
    lemma_topics_change(s.topics, with.brokers);
    assert(with.brokers.contains(b));
    let k = choose|k: int| 0 <= k < with.brokers.len() && with.brokers[k] == b;
    assert(with.brokers[k].alive);
    let t = registered(s, id, addr, peer, now_ms);
    assert(t.brokers == with.brokers);
    assert(t.topics == settled(with).topics);
    assert(all_served(t)) by {
        assert(forall|i: int, j: int|
            0 <= i < t.topics.len() && 0 <= j < t.topics[i].parts.len() ==> #[trigger]
            t.topics[i].parts[j] == settled(with).topics[i].parts[j]);
    }
    if exists|x: BrokerInfo| #[trigger] s.brokers.contains(x) && x.id == id {
        let x = choose|x: BrokerInfo| #[trigger] s.brokers.contains(x) && x.id == id;
        let i = choose|i: int| 0 <= i < s.brokers.len() && s.brokers[i] == x;
        lemma_broker_at(s.brokers, id, i);
        assert forall|y: BrokerInfo| #[trigger] s.brokers.contains(y) && y.id == id implies y
            == x by {
            let j = choose|j: int| 0 <= j < s.brokers.len() && s.brokers[j] == y;
            lemma_broker_at(s.brokers, id, j);
        }
    } else {
        assert forall|i: int| 0 <= i < s.brokers.len() implies (#[trigger] s.brokers[i]).id
            != id by {
            assert(s.brokers.contains(s.brokers[i]));
        }
        lemma_no_broker(s.brokers, id);
    }
}

proof fn lemma_with_contains(bs: Seq<BrokerInfo>, b: BrokerInfo)
    requires
        forall|i: int, j: int| 0 <= i < j < bs.len() ==> bs[i].id < bs[j].id,
    ensures
        forall|x: BrokerInfo| #[trigger]
            with_broker(bs, b).contains(x) <==> x == b || (x.id != b.id && bs.contains(x)),
    decreases bs.len(),
{
    let out = with_broker(bs, b);
    let n = bs.len() as int;
    if n == 0 || bs.last().id < b.id {
        assert forall|x: BrokerInfo| #[trigger] out.contains(x) <==> x == b || (x.id != b.id
            && bs.contains(x)) by {
            lemma_push_has(bs, b, x);
            if bs.contains(x) {
                let i = choose|i: int| 0 <= i < n && bs[i] == x;
                assert(bs[i].id <= bs[n - 1].id);
            }
        }
    } else {
        let head = bs.drop_last();
        assert(bs =~= head.push(bs.last()));
        lemma_with_contains(head, b);
        assert forall|x: BrokerInfo| #[trigger] out.contains(x) <==> x == b || (x.id != b.id
            && bs.contains(x)) by {
            lemma_push_has(head, bs.last(), x);
            if bs.last().id == b.id {
                lemma_push_has(head, b, x);
                if head.contains(x) {
                    let i = choose|i: int| 0 <= i < head.len() && head[i] == x;
                    assert(bs[i].id < bs[n - 1].id);
                }
            } else {
                lemma_push_has(with_broker(head, b), bs.last(), x);
            }
        }
    }
}

/// A heartbeat makes its broker alive and moves only its clock. Where it
/// brings back a dead broker, every partition is led by a living broker again
/// or has none in its ISR; of a broker that was alive it changes nothing that
/// others read.
pub proof fn law_heartbeat(s: StateView, i: int, now_ms: u64)
    requires
        state_ok(s),
        state_room(s),
        ids_signed(s.topics),
        0 <= i < s.brokers.len(),
    ensures
        ({
            let t = heartbeaten(s, i, now_ms);
            &&& t.brokers.len() == s.brokers.len()
            &&& forall|k: int|
                0 <= k < s.brokers.len() && k != i ==> #[trigger] t.brokers[k] == s.brokers[k]
            &&& t.brokers[i].alive
            &&& t.brokers[i].last == now_ms
            &&& t.brokers[i].id == s.brokers[i].id
            &&& t.brokers[i].addr == s.brokers[i].addr
            &&& t.brokers[i].peer == s.brokers[i].peer
            &&& s.brokers[i].alive ==> t.topics == s.topics
            &&& !s.brokers[i].alive ==> all_served(t) && only_headless_moved(
                s.topics,
                t.topics,
                t.brokers,
            )
            &&& t.version == (if t.topics == s.topics {
                s.version as int
            } else {
                s.version + 1
            })
        }),
{
    let b = s.brokers[i];
    let with = StateView {
        brokers: s.brokers.update(i, BrokerInfo { alive: true, last: now_ms, ..b }),
        ..s
    };
    lemma_settled(with);
    lemma_topics_change(s.topics, with.brokers);
    let t = heartbeaten(s, i, now_ms);
    if !b.alive {
        assert(t.topics == settled(with).topics);
        assert(all_served(t)) by {
            assert(forall|i: int, j: int|
                0 <= i < t.topics.len() && 0 <= j < t.topics[i].parts.len() ==> #[trigger]
                t.topics[i].parts[j] == settled(with).topics[i].parts[j]);
        }
    }
}

proof fn lemma_any_dead(bs: Seq<BrokerInfo>, now_ms: u64, timeout_ms: u64)
    ensures
        any_dead(bs, now_ms, timeout_ms) <==> exists|i: int|
            0 <= i < bs.len() && (#[trigger] bs[i]).alive && now_ms - bs[i].last > timeout_ms,
    decreases bs.len(),
{
    if bs.len() > 0 {
        let head = bs.drop_last();
        lemma_any_dead(head, now_ms, timeout_ms);
        if exists|i: int|
            0 <= i < head.len() && (#[trigger] head[i]).alive && now_ms - head[i].last
                > timeout_ms {
            let i = choose|i: int|
                0 <= i < head.len() && (#[trigger] head[i]).alive && now_ms - head[i].last
                    > timeout_ms;
            assert(bs[i].alive && now_ms - bs[i].last > timeout_ms);
        }
        assert(bs.last() == bs[bs.len() - 1]);
        if exists|i: int|
            0 <= i < bs.len() && (#[trigger] bs[i]).alive && now_ms - bs[i].last > timeout_ms {
            let i = choose|i: int|
                0 <= i < bs.len() && (#[trigger] bs[i]).alive && now_ms - bs[i].last > timeout_ms;
            if i < bs.len() - 1 {
                assert(head[i].alive && now_ms - head[i].last > timeout_ms);
            }
        }
    }
}

/// A sweep declares dead exactly the brokers that were alive and silent for
/// longer than the timeout. Where it found one, every partition is led by a
/// living broker or has none in its ISR, and the version rises; where it found
/// none, nothing changes.
pub proof fn law_swept(s: StateView, now_ms: u64, timeout_ms: u64)
    requires
        state_ok(s),
        state_room(s),
        ids_signed(s.topics),
    ensures
        ({
            let t = swept(s, now_ms, timeout_ms);
            let found = exists|i: int|
                0 <= i < s.brokers.len() && (#[trigger] s.brokers[i]).alive && now_ms
                    - s.brokers[i].last > timeout_ms;
            &&& t.brokers.len() == s.brokers.len()
            &&& forall|i: int|
                0 <= i < s.brokers.len() ==> {
                    let b = s.brokers[i];
                    let c = #[trigger] t.brokers[i];
                    &&& c.alive == (b.alive && now_ms - b.last <= timeout_ms)
                    &&& c.id == b.id && c.addr == b.addr && c.peer == b.peer && c.last == b.last
                }
            &&& found ==> all_served(t) && only_headless_moved(s.topics, t.topics, t.brokers)
                && t.version == s.version + 1
            &&& !found ==> t == s
        }),
{
    let with = StateView { brokers: swept_brokers(s.brokers, now_ms, timeout_ms), ..s };
    lemma_any_dead(s.brokers, now_ms, timeout_ms);
    lemma_settled(with);
    let t = swept(s, now_ms, timeout_ms);
    if any_dead(s.brokers, now_ms, timeout_ms) {
        assert(t.topics == settled(with).topics);
        assert(t.brokers == with.brokers);
        assert(all_served(t)) by {
            assert(forall|i: int, j: int|
                0 <= i < t.topics.len() && 0 <= j < t.topics[i].parts.len() ==> #[trigger]
                t.topics[i].parts[j] == settled(with).topics[i].parts[j]);
        }
    }
}

/// The leader that an election picks is the first member of the ISR that
/// lives, and the new ISR is the old one without its dead, in the same order.
pub proof fn law_elected_first(p: PartitionInfo, bs: Seq<BrokerInfo>)
    requires
        !(p.leader >= 0 && is_alive(bs, p.leader as u32)),
    ensures
        forall|k: int|
            0 <= k < p.isr.len() && is_alive(bs, #[trigger] p.isr[k]) && (forall|j: int|
                0 <= j < k ==> !is_alive(bs, #[trigger] p.isr[j])) ==> {
                &&& elected(p, bs).leader == as_leader(p.isr[k])
                &&& elected(p, bs).isr == p.isr.filter(|id: u32| is_alive(bs, id))
            },
{
    assert forall|k: int|
        0 <= k < p.isr.len() && is_alive(bs, #[trigger] p.isr[k]) && (forall|j: int|
            0 <= j < k ==> !is_alive(bs, #[trigger] p.isr[j])) implies {
        &&& elected(p, bs).leader == as_leader(p.isr[k])
        &&& elected(p, bs).isr == p.isr.filter(|id: u32| is_alive(bs, id))
    } by {
        lemma_first_is(p.isr, bs, k);
        lemma_living_filter(p.isr, bs);
    }
}

proof fn lemma_first_is(ids: Seq<u32>, bs: Seq<BrokerInfo>, k: int)
    requires
        0 <= k < ids.len(),
        is_alive(bs, ids[k]),
        forall|j: int| 0 <= j < k ==> !is_alive(bs, #[trigger] ids[j]),
    ensures
        first_alive(ids, bs) == Some(ids[k]),
    decreases k,
{
    if k > 0 {
        assert(!is_alive(bs, ids[0]));
        let tail = ids.skip(1);
        assert forall|j: int| 0 <= j < k - 1 implies !is_alive(bs, #[trigger] tail[j]) by {
            assert(tail[j] == ids[j + 1]);
        }
        lemma_first_is(tail, bs, k - 1);
    }
}

proof fn lemma_living_filter(ids: Seq<u32>, bs: Seq<BrokerInfo>)
    ensures
        living(ids, bs) == ids.filter(|id: u32| is_alive(bs, id)),
    decreases ids.len(),
{
    reveal(Seq::filter);
    if ids.len() > 0 {
        lemma_living_filter(ids.drop_last(), bs);
    }
}

proof fn lemma_ring(p: int, a: int, n: int)
    requires
        p >= 0,
        0 <= a < n,
    ensures
        ({
            let q = p + (a - p) % n;
            &&& p <= q < p + n
            &&& q % n == a
        }),
{
    vstd::arithmetic::div_mod::lemma_mod_bound(a - p, n);
    vstd::arithmetic::div_mod::lemma_add_mod_noop_right(p, a - p, n);
    vstd::arithmetic::div_mod::lemma_small_mod(a as nat, n as nat);
}

/// Partitions go round the living brokers: the next partition starts one broker
/// further, with the others following in the same circle, and of any
/// `ids.len()` partitions in a row each living broker leads exactly one.
pub proof fn law_spread(ids: Seq<u32>, p: int, rf: nat)
    requires
        forall|i: int, j: int| 0 <= i < j < ids.len() ==> ids[i] < ids[j],
        1 <= rf <= ids.len(),
        p >= 0,
    ensures
        placement(ids, p, rf)[0] == ids[p % (ids.len() as int)],
        forall|i: int|
            0 <= i < rf - 1 ==> #[trigger] placement(ids, p, rf)[i + 1] == placement(
                ids,
                p + 1,
                rf,
            )[i],
        forall|x: u32| #[trigger]
            ids.contains(x) ==> exists|q: int|
                p <= q < p + ids.len() && #[trigger] new_part(ids, q, rf).leader == as_leader(x),
        forall|q: int, r: int|
            p <= q < r < p + ids.len() ==> #[trigger] new_part(ids, q, rf).leader
                != #[trigger] new_part(ids, r, rf).leader,
{
    let n = ids.len() as int;
    assert forall|x: u32| #[trigger] ids.contains(x) implies exists|q: int|
        p <= q < p + ids.len() && #[trigger] new_part(ids, q, rf).leader == as_leader(x) by {
        let a = choose|a: int| 0 <= a < ids.len() && ids[a] == x;
        lemma_ring(p, a, n);
        let q = p + (a - p) % n;
        assert(new_part(ids, q, rf).leader == as_leader(x));
    }
    assert forall|q: int, r: int| p <= q < r < p + ids.len() implies #[trigger] new_part(
        ids,
        q,
        rf,
    ).leader != #[trigger] new_part(ids, r, rf).leader by {
        lemma_mod_distinct(q, r, n);
        vstd::arithmetic::div_mod::lemma_mod_bound(q, n);
        vstd::arithmetic::div_mod::lemma_mod_bound(r, n);
        let a = q % n;
        let b = r % n;
        assert(ids[a] != ids[b]) by {
            if a < b {
                assert(ids[a] < ids[b]);
            } else {
                assert(ids[b] < ids[a]);
            }
        }
        assert(placement(ids, q, rf)[0] == ids[a]);
        assert(placement(ids, r, rf)[0] == ids[b]);
    }
}

proof fn lemma_living_ids(bs: Seq<BrokerInfo>)
    ensures
        living_ids(bs).len() == bs.filter(|b: BrokerInfo| b.alive).len(),
        forall|x: u32| #[trigger] living_ids(bs).contains(x) <==> is_alive(bs, x),
    decreases bs.len(),
{
    reveal(Seq::filter);
    let out = living_ids(bs);
    if bs.len() > 0 {
        let head = bs.drop_last();
        lemma_living_ids(head);
        assert forall|x: u32| #[trigger] out.contains(x) <==> is_alive(bs, x) by {
            lemma_push_has(living_ids(head), bs.last().id, x);
            assert(bs.last() == bs[bs.len() - 1]);
            if is_alive(head, x) {
                let i = choose|i: int|
                    0 <= i < head.len() && (#[trigger] head[i]).id == x && head[i].alive;
                assert(bs[i].id == x && bs[i].alive);
            }
            if is_alive(bs, x) {
                let i = choose|i: int|
                    0 <= i < bs.len() && (#[trigger] bs[i]).id == x && bs[i].alive;
                if i < head.len() {
                    assert(head[i].id == x && head[i].alive);
                }
            }
            assert(living_ids(head).contains(x) <==> is_alive(head, x));
        }
    }
}

proof fn lemma_with_topic_contains(ts: Seq<TopicInfo>, t: TopicInfo)
    requires
        forall|i: int| 0 <= i < ts.len() ==> (#[trigger] ts[i]).name != t.name,
    ensures
        forall|x: TopicInfo| #[trigger]
            with_topic(ts, t).contains(x) <==> x == t || ts.contains(x),
    decreases ts.len(),
{
    let out = with_topic(ts, t);
    if ts.len() > 0 {
        let head = ts.drop_last();
        assert(ts =~= head.push(ts.last()));
        assert(ts.last() == ts[ts.len() - 1]);
        assert forall|i: int| 0 <= i < head.len() implies (#[trigger] head[i]).name != t.name by {
            assert(head[i] == ts[i]);
        }
        lemma_with_topic_contains(head, t);
        assert forall|x: TopicInfo| #[trigger] out.contains(x) <==> x == t || ts.contains(x) by {
            lemma_push_has(head, ts.last(), x);
            lemma_push_has(ts, t, x);
            lemma_push_has(with_topic(head, t), ts.last(), x);
        }
    } else {
        assert forall|x: TopicInfo| #[trigger] out.contains(x) <==> x == t || ts.contains(x) by {
            lemma_push_has(ts, t, x);
        }
    }
}

proof fn lemma_topic_found(ts: Seq<TopicInfo>, name: Seq<char>)
    ensures
        topic_at(ts, name) matches Some(k) ==> 0 <= k < ts.len() && ts[k].name == name,
        topic_at(ts, name) is None ==> forall|i: int|
            0 <= i < ts.len() ==> (#[trigger] ts[i]).name != name,
    decreases ts.len(),
{
    if ts.len() > 0 && ts.last().name != name {
        let head = ts.drop_last();
        lemma_topic_found(head, name);
        assert forall|i: int| 0 <= i < ts.len() && topic_at(ts, name) is None implies (
        #[trigger] ts[i]).name != name by {
            if i < head.len() {
                assert(head[i] == ts[i]);
            }
        }
    }
}

/// A topic is refused where its name is taken, and otherwise exactly where its
/// partitions are none or more than 1024, or its copies (at least one) more
/// than the living brokers; a refusal changes nothing.
pub proof fn law_create_refused(s: StateView, name: Seq<char>, n: u32, rf: u32)
    requires
        state_ok(s),
    ensures
        ({
            let taken = exists|i: int| 0 <= i < s.topics.len() && #[trigger] s.topics[i].name
                == name;
            let copies = if rf == 0 {
                1
            } else {
                rf as int
            };
            let living = s.brokers.filter(|b: BrokerInfo| b.alive).len();
            let e = create_error(s, name, n, rf);
            &&& e == ErrorCode::TopicExists <==> taken
            &&& e == ErrorCode::Malformed <==> !taken && (n == 0 || n > 1024 || copies > living)
            &&& e == ErrorCode::NoError <==> !taken && 1 <= n <= 1024 && copies <= living
            &&& e != ErrorCode::NoError ==> created(s, name, n, rf) == s
        }),
{
    lemma_living_ids(s.brokers);
    lemma_topic_found(s.topics, name);
}

/// A topic that is not refused is there afterwards, with the partitions and
/// copies asked for, each of them in its first epoch, in sync on different
/// living brokers and led by the first; partitions that follow each other lie
/// one broker further round. Other topics and the brokers are as they were, and
/// the version rises.
pub proof fn law_created(s: StateView, name: Seq<char>, n: u32, rf: u32)
    requires
        state_ok(s),
        state_room(s),
        create_error(s, name, n, rf) == ErrorCode::NoError,
    ensures
        ({
            let t = created(s, name, n, rf);
            let copies = if rf == 0 {
                1
            } else {
                rf as int
            };
            let living = s.brokers.filter(|b: BrokerInfo| b.alive).len() as int;
            &&& t.brokers == s.brokers
            &&& t.version == s.version + 1
            &&& exists|new: TopicInfo| #[trigger]
                t.topics.contains(new) && new.name == name && new.parts.len() == n && (forall|
                    x: TopicInfo,
                | #[trigger]
                    t.topics.contains(x) <==> x == new || s.topics.contains(x)) && (forall|p: int|
                    0 <= p < n ==> {
                        let part = #[trigger] new.parts[p];
                        &&& part.epoch == 1
                        &&& part.replicas.len() == copies
                        &&& part.isr == part.replicas
                        &&& part.leader == as_leader(part.replicas[0])
                        &&& forall|i: int|
                            0 <= i < copies ==> is_alive(s.brokers, #[trigger] part.replicas[i])
                        &&& forall|i: int, j: int|
                            0 <= i < j < copies ==> part.replicas[i] != part.replicas[j]
                    }) && (forall|p: int, q: int|
                    0 <= p < q < n && q < p + living ==> (#[trigger] new.parts[p]).leader != (
                    #[trigger] new.parts[q]).leader) && (forall|p: int, q: int|
                    0 <= p < n && q == p + living && q < n ==> #[trigger] new.parts[p]
                        == #[trigger] new.parts[q]) && (forall|p: int, q: int, i: int|
                    0 <= p < n && q == p + 1 && q < n && 0 <= i < copies - 1 ==> (
                    #[trigger] new.parts[q]).replicas[i] == (
                    #[trigger] new.parts[p]).replicas[#[trigger] (i + 1)])
        }),
{
    let ids = living_ids(s.brokers);
    let copies = at_least_one(rf);
    let living = ids.len() as int;
    lemma_living_ids(s.brokers);
    lemma_living_rise(s.brokers);
    lemma_topic_found(s.topics, name);
    let new = TopicInfo { name, parts: new_parts(ids, n as nat, copies) };
    lemma_with_topic_contains(s.topics, new);
    let t = created(s, name, n, rf);
    assert(t.topics.contains(new));
    assert forall|p: int| 0 <= p < n implies {
        let part = #[trigger] new.parts[p];
        &&& forall|i: int| 0 <= i < copies ==> is_alive(s.brokers, #[trigger] part.replicas[i])
        &&& forall|i: int, j: int|
            0 <= i < j < copies ==> part.replicas[i] != part.replicas[j]
    } by {
        super::laws::law_placement(ids, p, copies);
        let part = new.parts[p];
        assert(part.replicas == placement(ids, p, copies));
        assert forall|i: int| 0 <= i < copies implies is_alive(
            s.brokers,
            #[trigger] part.replicas[i],
        ) by {
            assert(ids.contains(part.replicas[i]));
        }
    }
    assert forall|p: int, q: int| 0 <= p < q < n && q < p + living implies (
    #[trigger] new.parts[p]).leader != (#[trigger] new.parts[q]).leader by {
        law_spread(ids, p, copies);
        assert(new.parts[p] == new_part(ids, p, copies));
        assert(new.parts[q] == new_part(ids, q, copies));
    }
    assert forall|p: int, q: int| 0 <= p < n && q == p + living && q < n implies #[trigger] new.parts[p]
        == #[trigger] new.parts[q] by {
        let a = placement(ids, p, copies);
        let b = placement(ids, q, copies);
        assert forall|i: int| 0 <= i < copies implies #[trigger] a[i] == b[i] by {
            vstd::arithmetic::div_mod::lemma_mod_add_multiples_vanish(p + i, living);
        }
        assert(a =~= b);
    }
    assert forall|p: int, q: int, i: int|
        0 <= p < n && q == p + 1 && q < n && 0 <= i < copies - 1 implies (
    #[trigger] new.parts[q]).replicas[i] == (#[trigger] new.parts[p]).replicas[#[trigger] (i
        + 1)] by {
        assert((q + i) % living == (p + (i + 1)) % living);
    }
}

/// An ISR is taken exactly where the topic and partition are there, the epoch
/// is the partition's own, and the row names its leader and none but its
/// replicas: a stale epoch is fenced, any other row malformed.
pub proof fn law_alter_accepted(
    s: StateView,
    t: int,
    partition: u32,
    epoch: u64,
    isr: Seq<u32>,
)
    requires
        state_ok(s),
        state_room(s),
        0 <= t < s.topics.len(),
        partition < s.topics[t].parts.len(),
    ensures
        ({
            let p = s.topics[t].parts[partition as int];
            let good = isr.contains(bits32(p.leader) as u32) && forall|i: int|
                0 <= i < isr.len() ==> p.replicas.contains(#[trigger] isr[i]);
            let e = alter_error(s, s.topics[t].name, partition, epoch, isr);
            let after = altered(s, s.topics[t].name, partition, epoch, isr);
            &&& e == ErrorCode::NoError <==> epoch == p.epoch && good
            &&& e == ErrorCode::FencedEpoch <==> epoch != p.epoch
            &&& e == ErrorCode::Malformed <==> epoch == p.epoch && !good
            &&& e == ErrorCode::NoError ==> after.topics[t].parts[partition as int].isr == isr
            &&& e != ErrorCode::NoError ==> after == s
            &&& after.brokers == s.brokers
            &&& after.topics.len() == s.topics.len()
            &&& forall|i: int|
                0 <= i < s.topics.len() && i != t ==> #[trigger] after.topics[i] == s.topics[i]
            &&& after.topics[t].name == s.topics[t].name
            &&& after.topics[t].parts.len() == s.topics[t].parts.len()
            &&& forall|k: int|
                0 <= k < s.topics[t].parts.len() && k != partition ==> #[trigger]
                after.topics[t].parts[k] == s.topics[t].parts[k]
            &&& after.version == (if e == ErrorCode::NoError && isr != p.isr {
                s.version + 1
            } else {
                s.version as int
            })
        }),
{
    lemma_topic_at(s.topics, s.topics[t].name, t);
    let p = s.topics[t].parts[partition as int];
    if isr.contains(bits32(p.leader) as u32) {
        assert(isr.len() > 0);
    }
}

/// What is asked of a topic or partition that is not there is refused as
/// unknown.
pub proof fn law_alter_unknown(
    s: StateView,
    name: Seq<char>,
    partition: u32,
    epoch: u64,
    isr: Seq<u32>,
)
    requires
        forall|i: int|
            0 <= i < s.topics.len() && (#[trigger] s.topics[i]).name == name ==> partition
                >= s.topics[i].parts.len(),
    ensures
        alter_error(s, name, partition, epoch, isr) == ErrorCode::UnknownTopicOrPartition,
        altered(s, name, partition, epoch, isr) == s,
{
    lemma_topic_found(s.topics, name);
}

/// What brokers and clients are answered: a registration always succeeds, with
/// the version it made; a heartbeat of a broker that is not there is sent back
/// to register, and changes nothing; a topic or an ISR gets the code of its
/// refusal or none; and the metadata is the state.
pub proof fn law_answered(s: StateView, t: StateView, req: Request, now_ms: u64, r: Response)
    requires
        handles(s, t, req, now_ms, r),
        state_ok(s),
    ensures
        req is RegisterBroker ==> r == (Response::RegisterBroker {
            error: ErrorCode::NoError,
            metadata_version: t.version,
        }) && t == registered(
            s,
            req->RegisterBroker_broker_id,
            req->RegisterBroker_addr@,
            req->RegisterBroker_peer_addr@,
            now_ms,
        ),
        req is BrokerHeartbeat ==> {
            let id = req->BrokerHeartbeat_broker_id;
            let known = exists|i: int| 0 <= i < s.brokers.len() && (#[trigger] s.brokers[i]).id
                == id;
            &&& r == (Response::BrokerHeartbeat {
                error: if known {
                    ErrorCode::NoError
                } else {
                    ErrorCode::UnknownMember
                },
                metadata_version: t.version,
            })
            &&& !known ==> t == s
            &&& forall|i: int|
                0 <= i < s.brokers.len() && (#[trigger] s.brokers[i]).id == id ==> t
                    == heartbeaten(s, i, now_ms)
        },
        req is CreateTopic ==> r is CreateTopic && r->CreateTopic_error == create_error(
            s,
            req->CreateTopic_topic@,
            req->CreateTopic_partitions,
            req->CreateTopic_replication_factor,
        ) && t == created(
            s,
            req->CreateTopic_topic@,
            req->CreateTopic_partitions,
            req->CreateTopic_replication_factor,
        ),
        req is AlterIsr ==> r is AlterIsr && r->AlterIsr_metadata_version == t.version
            && r->AlterIsr_error == alter_error(
            s,
            req->AlterIsr_topic@,
            req->AlterIsr_partition,
            req->AlterIsr_leader_epoch,
            req->AlterIsr_isr@,
        ) && t == altered(
            s,
            req->AlterIsr_topic@,
            req->AlterIsr_partition,
            req->AlterIsr_leader_epoch,
            req->AlterIsr_isr@,
        ),
        req is ControllerMetadata ==> t == s && r is ControllerMetadata
            && r->ControllerMetadata_error == ErrorCode::NoError && meta_says(
            r->ControllerMetadata_cluster,
            s,
        ),
        !(req is RegisterBroker || req is BrokerHeartbeat || req is CreateTopic || req is AlterIsr
            || req is ControllerMetadata) ==> t == s && r is ControllerMetadata
            && r->ControllerMetadata_error == ErrorCode::Malformed,
{
    if req is BrokerHeartbeat {
        let id = req->BrokerHeartbeat_broker_id;
        if exists|i: int| 0 <= i < s.brokers.len() && (#[trigger] s.brokers[i]).id == id {
            assert forall|i: int| 0 <= i < s.brokers.len() && (#[trigger] s.brokers[i]).id
                == id implies broker_at(s.brokers, id) == Some(i) by {
                lemma_broker_at(s.brokers, id, i);
            }
        } else {
            lemma_no_broker(s.brokers, id);
        }
    }
}

/// Metadata names every broker with both its addresses, and every partition
/// with its leader, epoch, replicas and ISR, as the state has them.
pub proof fn law_metadata_whole(m: ClusterMeta, s: StateView)
    requires
        meta_says(m, s),
    ensures
        m.version == s.version,
        m.brokers@.len() == s.brokers.len(),
        m.peers@.len() == s.brokers.len(),
        forall|i: int|
            0 <= i < s.brokers.len() ==> (#[trigger] m.brokers@[i]).0 == s.brokers[i].id
                && m.brokers@[i].1@ == s.brokers[i].addr,
        forall|i: int|
            0 <= i < s.brokers.len() ==> (#[trigger] m.peers@[i]).0 == s.brokers[i].id
                && m.peers@[i].1@ == s.brokers[i].peer,
        m.topics@.len() == s.topics.len(),
        forall|i: int|
            0 <= i < s.topics.len() ==> (#[trigger] m.topics@[i]).name@ == s.topics[i].name
                && m.topics@[i].partitions@.len() == s.topics[i].parts.len(),
        forall|i: int, p: int|
            0 <= i < s.topics.len() && 0 <= p < s.topics[i].parts.len() ==> {
                let said = #[trigger] m.topics@[i].partitions@[p];
                let part = s.topics[i].parts[p];
                said.partition == p && said.leader == part.leader && said.leader_epoch
                    == part.epoch && said.replicas@ == part.replicas && said.isr@ == part.isr
            },
{
    assert forall|i: int, p: int| 0 <= i < s.topics.len() && 0 <= p < s.topics[i].parts.len() implies {
        let said = #[trigger] m.topics@[i].partitions@[p];
        let part = s.topics[i].parts[p];
        said.partition == p && said.leader == part.leader && said.leader_epoch == part.epoch
            && said.replicas@ == part.replicas && said.isr@ == part.isr
    } by {
        assert(topic_says(m.topics@[i], s.topics[i]));
        assert(part_says(m.topics@[i].partitions@[p], p, s.topics[i].parts[p]));
    }
}

proof fn lemma_parts_kept(a: Seq<PartitionState>, b: Seq<PartitionState>)
    requires
        part_list(a) == part_list(b),
    ensures
        parts_view(a) == parts_view(b),
{
    let x = a.map_values(|p: PartitionState| part_vals(p));
    let y = b.map_values(|p: PartitionState| part_vals(p));
    assert(x == y);
    assert(x.len() == a.len() && y.len() == b.len());
    assert forall|i: int| 0 <= i < a.len() implies (#[trigger] a[i])@ == b[i]@ by {
        assert(x[i] == y[i]);
        assert(part_vals(a[i]) == part_vals(b[i]));
        lemma_ids_apart(a[i].replicas@, b[i].replicas@);
        lemma_ids_apart(a[i].isr@, b[i].isr@);
        assert(a[i].replicas@ =~= b[i].replicas@);
        assert(a[i].isr@ =~= b[i].isr@);
    }
    assert(parts_view(a) =~= parts_view(b));
}

proof fn lemma_topics_kept(a: Seq<TopicState>, b: Seq<TopicState>)
    requires
        named_list(a) == named_list(b),
    ensures
        topics_view(a) == topics_view(b),
{
    let x = a.map_values(|t: TopicState| named_vals(t));
    let y = b.map_values(|t: TopicState| named_vals(t));
    assert(x == y);
    assert(x.len() == a.len() && y.len() == b.len());
    assert forall|i: int| 0 <= i < a.len() implies (#[trigger] a[i])@ == b[i]@ by {
        assert(x[i] == y[i]);
        assert(named_vals(a[i]) == named_vals(b[i]));
        lemma_parts_kept(a[i].partitions@, b[i].partitions@);
    }
    assert(topics_view(a) =~= topics_view(b));
}

proof fn lemma_gathered_same(a: Seq<BrokerInfo>, b: Seq<BrokerInfo>)
    requires
        a.len() == b.len(),
        forall|i: int| 0 <= i < a.len() ==> forgotten(#[trigger] a[i]) == forgotten(b[i]),
    ensures
        gathered_brokers(a) == gathered_brokers(b),
    decreases a.len(),
{
    if a.len() > 0 {
        let x = a.drop_last();
        let y = b.drop_last();
        assert forall|i: int| 0 <= i < x.len() implies forgotten(#[trigger] x[i]) == forgotten(
            y[i],
        ) by {
            assert(a[i] == x[i] && b[i] == y[i]);
        }
        lemma_gathered_same(x, y);
        assert(forgotten(a[a.len() - 1]) == forgotten(b[b.len() - 1]));
    }
}

/// A controller that starts again from its snapshot knows every topic and
/// partition as it was, and every broker at its client address; that any of
/// them lives it has yet to hear.
pub proof fn law_snapshot_restores(s: State, t: State)
    requires
        s.ok(),
        fits(snapshot_vals(s)),
        snapshot_says(snapshot_bytes(s), t),
    ensures
        t@.version == s@.version,
        t@.topics == s@.topics,
        t@.brokers.len() == s@.brokers.len(),
        forall|i: int|
            0 <= i < s@.brokers.len() ==> {
                let b = #[trigger] t@.brokers[i];
                b.id == s@.brokers[i].id && b.addr == s@.brokers[i].addr && b.peer
                    == s@.brokers[i].addr && !b.alive && b.last == 0
            },
{
    law_snapshot_roundtrip(s);
    let vals = parse(snapshot_row(), snapshot_bytes(s).skip(4))->Ok_0.0;
    let raw = choose|raw: State| #[trigger] snapshot_vals(raw) == vals && t@ == gathered(raw@);
    assert(snapshot_vals(raw) == snapshot_vals(s));
    let a = raw.brokers@;
    let b = s.brokers@;
    let x = a.map_values(|h: BrokerState| host_vals(h));
    let y = b.map_values(|h: BrokerState| host_vals(h));
    assert(host_list(a) == host_list(b));
    assert(x == y);
    assert(x.len() == a.len() && y.len() == b.len());
    assert forall|i: int| 0 <= i < raw@.brokers.len() implies forgotten(
        #[trigger] raw@.brokers[i],
    ) == forgotten(s@.brokers[i]) by {
        assert(x[i] == y[i]);
        assert(host_vals(a[i]) == host_vals(b[i]));
    }
    lemma_gathered_same(raw@.brokers, s@.brokers);
    lemma_topics_kept(raw.topics@, s.topics@);
    assert(t@ == gathered(s@));
}

/// A request that comes in a frame is answered under its own correlation id,
/// with what the controller answers to that request; and what changed is
/// persisted before.
pub proof fn law_served(
    s: StateView,
    t: StateView,
    req: Request,
    corr: u32,
    now_ms: u64,
    r: Served,
)
    requires
        fits(request_vals(req)),
        state_room(s),
        serves(s, t, frame(request_tag(req), corr, request_vals(req)).skip(4), now_ms, r),
    ensures
        r is Reply,
        r->snapshot is Some <==> t.version != s.version,
        exists|same: Request, resp: Response|
            #![trigger handles(s, t, same, now_ms, resp)]
            same_request(req, same) && handles(s, t, same, now_ms, resp) && r->frame@ == frame(
                response_tag(resp),
                corr,
                response_vals(resp),
            ),
{
    law_request_roundtrip(req, corr);
    let payload = frame(request_tag(req), corr, request_vals(req)).skip(4);
    let (same, resp) = choose|same: Request, resp: Response|
        #![trigger handles(s, t, same, now_ms, resp)]
        {
            &&& request_tag(same) == request_tag(req)
            &&& request_vals(same) == request_vals(req)
            &&& handles(s, t, same, now_ms, resp)
            &&& r is Reply
            &&& r->frame@ == frame(response_tag(resp), corr, response_vals(resp))
            &&& (r->snapshot is Some <==> t.version != s.version)
        };
    law_requests_apart(req, same);
    assert(handles(s, t, same, now_ms, resp));
}

/// How many partitions a broker leads.
pub open spec fn led_by(ps: Seq<PartitionInfo>, id: u32) -> nat {
    ps.filter(|p: PartitionInfo| p.leader == as_leader(id)).len()
}

proof fn lemma_led(ids: Seq<u32>, n: nat, rf: nat, a: int)
    requires
        forall|i: int, j: int| 0 <= i < j < ids.len() ==> ids[i] < ids[j],
        1 <= rf <= ids.len(),
        0 <= a < ids.len(),
    ensures
        led_by(new_parts(ids, n, rf), ids[a]) == n as int / ids.len() as int + (if a < n as int
            % ids.len() as int {
            1int
        } else {
            0
        }),
    decreases n,
{
    reveal(Seq::filter);
    let l = ids.len() as int;
    let ps = new_parts(ids, n, rf);
    if n == 0 {
        assert(ps =~= Seq::empty());
        vstd::arithmetic::div_mod::lemma_small_mod(0, l as nat);
        vstd::arithmetic::div_mod::lemma_basic_div(0, l);
    } else {
        let m = (n - 1) as nat;
        lemma_led(ids, m, rf, a);
        assert(ps.drop_last() =~= new_parts(ids, m, rf));
        assert(ps.last() == new_part(ids, m as int, rf));
        let b = m as int % l;
        vstd::arithmetic::div_mod::lemma_mod_bound(m as int, l);
        assert(placement(ids, m as int, rf)[0] == ids[b]);
        assert(as_leader(ids[a]) == as_leader(ids[b]) <==> a == b) by {
            if a < b {
                assert(ids[a] < ids[b]);
            } else if b < a {
                assert(ids[b] < ids[a]);
            }
        }
        lemma_next_div(m as int, l);
    }
}

proof fn lemma_next_div(m: int, l: int)
    requires
        m >= 0,
        l > 0,
    ensures
        m % l == l - 1 ==> (m + 1) / l == m / l + 1 && (m + 1) % l == 0,
        m % l < l - 1 ==> (m + 1) / l == m / l && (m + 1) % l == m % l + 1,
{
    vstd::arithmetic::div_mod::lemma_fundamental_div_mod(m, l);
    vstd::arithmetic::div_mod::lemma_mod_bound(m, l);
    let q = m / l;
    let r = m % l;
    if r == l - 1 {
        assert(m + 1 == (q + 1) * l + 0) by (nonlinear_arith)
            requires
                m == l * q + r,
                r == l - 1,
        ;
        vstd::arithmetic::div_mod::lemma_fundamental_div_mod_converse(m + 1, l, q + 1, 0);
    } else {
        assert(m + 1 == q * l + (r + 1)) by (nonlinear_arith)
            requires
                m == l * q + r,
        ;
        vstd::arithmetic::div_mod::lemma_fundamental_div_mod_converse(m + 1, l, q, r + 1);
    }
}

/// However many partitions a new topic has, two living brokers lead the same
/// number of them, or one of them one more.
pub proof fn law_even_leaders(ids: Seq<u32>, n: nat, rf: nat, a: int, b: int)
    requires
        forall|i: int, j: int| 0 <= i < j < ids.len() ==> ids[i] < ids[j],
        1 <= rf <= ids.len(),
        0 <= a < ids.len(),
        0 <= b < ids.len(),
    ensures
        led_by(new_parts(ids, n, rf), ids[a]) <= led_by(new_parts(ids, n, rf), ids[b]) + 1,
{
    lemma_led(ids, n, rf, a);
    lemma_led(ids, n, rf, b);
}

/// The copies of a new topic go round the living brokers in the order of their
/// ids: the first partition starts at the lowest, and each copy is on the next.
pub proof fn law_created_in_turn(s: StateView, name: Seq<char>, n: u32, rf: u32, t: int)
    requires
        state_ok(s),
        state_room(s),
        create_error(s, name, n, rf) == ErrorCode::NoError,
        0 <= t < created(s, name, n, rf).topics.len(),
        created(s, name, n, rf).topics[t].name == name,
    ensures
        exists|ids: Seq<u32>| #[trigger]
            in_turn(ids, s.brokers, created(s, name, n, rf).topics[t].parts),
{
    let ids = living_ids(s.brokers);
    lemma_living_ids(s.brokers);
    lemma_living_rise(s.brokers);
    lemma_topic_found(s.topics, name);
    let new = TopicInfo { name, parts: new_parts(ids, n as nat, at_least_one(rf)) };
    lemma_with_topic_contains(s.topics, new);
    let x = created(s, name, n, rf).topics[t];
    assert(created(s, name, n, rf).topics.contains(x));
    if x != new {
        let i = choose|i: int| 0 <= i < s.topics.len() && s.topics[i] == x;
        assert(s.topics[i].name != name);
    }
    assert(in_turn(ids, s.brokers, x.parts));
}

/// The ids are those of the living brokers, in order, and the copies lie on
/// them in a circle.
pub open spec fn in_turn(ids: Seq<u32>, bs: Seq<BrokerInfo>, parts: Seq<PartitionInfo>) -> bool {
    &&& forall|i: int, j: int| 0 <= i < j < ids.len() ==> ids[i] < ids[j]
    &&& forall|id: u32| #[trigger] ids.contains(id) <==> is_alive(bs, id)
    &&& forall|p: int, i: int|
        0 <= p < parts.len() && 0 <= i < parts[p].replicas.len() ==> #[trigger] parts[p].replicas[i]
            == ids[(p + i) % (ids.len() as int)]
}

} // verus!
