//! What the controller promises.

use super::snapshot::{
    forgotten, gathered, gathered_brokers, gathered_topics, lemma_host_shaped, lemma_named_shaped,
    snapshot_bytes, snapshot_fault, snapshot_row, snapshot_vals, SNAPSHOT_MAGIC,
};
use super::{
    altered, as_leader, elected, first_alive, is_alive, living, meta_says, new_part, placement,
    short, state_ok, topic_at, topic_says, topics_ok, BrokerInfo, PartitionInfo, State, StateView,
    TopicInfo,
};
use crate::codec::{bits32, law_le_roundtrip, le, lemma_pow256_values};
use crate::ids::{all_in, rising_ids};
use crate::order::text_le;
use crate::proto::fits::lemma_partitions_fit;
use crate::proto::lists::addr_list;
use crate::proto::meta::{cluster_vals, topic_list};
use crate::proto::schema::{encode, fits, law_parse_encode, parse, shaped, texts_fit, Fault, Vals};
use crate::proto::ClusterMeta;
use vstd::prelude::*;

verus! {

proof fn lemma_first_alive(ids: Seq<u32>, bs: Seq<BrokerInfo>)
    ensures
        match first_alive(ids, bs) {
            Some(id) => ids.contains(id) && is_alive(bs, id),
            None => forall|i: int| 0 <= i < ids.len() ==> !is_alive(bs, #[trigger] ids[i]),
        },
    decreases ids.len(),
{
    if ids.len() > 0 && !is_alive(bs, ids[0]) {
        let tail = ids.skip(1);
        lemma_first_alive(tail, bs);
        match first_alive(tail, bs) {
            Some(id) => {
                let k = choose|k: int| 0 <= k < tail.len() && tail[k] == id;
                assert(ids[k + 1] == id);
            },
            None => {
                assert forall|i: int| 0 <= i < ids.len() implies !is_alive(bs, #[trigger] ids[i]) by {
                    if i > 0 {
                        assert(ids[i] == tail[i - 1]);
                    }
                }
            },
        }
    } else if ids.len() > 0 {
        assert(ids[0] == ids[0]);
    }
}

proof fn lemma_living(ids: Seq<u32>, bs: Seq<BrokerInfo>, id: u32)
    ensures
        living(ids, bs).contains(id) <==> ids.contains(id) && is_alive(bs, id),
    decreases ids.len(),
{
    if ids.len() > 0 {
        let head = ids.drop_last();
        lemma_living(head, bs, id);
        crate::ids::lemma_push_contains(head, ids.last(), id);
        assert(head.push(ids.last()) =~= ids);
        crate::ids::lemma_push_contains(living(head, bs), ids.last(), id);
    }
}

/// An election never goes outside the ISR: a live leader stays as it is; else
/// the new leader is a live member of the ISR, in the next epoch, and leads an
/// ISR of exactly the live members; and where no member lives, the partition is
/// offline in its old epoch, with its ISR kept.
pub proof fn law_election(p: PartitionInfo, bs: Seq<BrokerInfo>)
    requires
        p.epoch < u64::MAX,
    ensures
        ({
            let q = elected(p, bs);
            &&& q.replicas == p.replicas
            &&& q.leader != p.leader && q.leader != -1 ==> exists|id: u32| #[trigger]
                p.isr.contains(id) && is_alive(bs, id) && q.leader == as_leader(id)
            &&& p.leader >= 0 && is_alive(bs, p.leader as u32) ==> q == p
            &&& !(p.leader >= 0 && is_alive(bs, p.leader as u32)) ==> match first_alive(
                p.isr,
                bs,
            ) {
                Some(id) => {
                    &&& p.isr.contains(id)
                    &&& is_alive(bs, id)
                    &&& q.leader == as_leader(id)
                    &&& q.epoch == p.epoch + 1
                    &&& forall|x: u32| #[trigger]
                        q.isr.contains(x) <==> p.isr.contains(x) && is_alive(bs, x)
                },
                None => {
                    &&& forall|i: int| 0 <= i < p.isr.len() ==> !is_alive(bs, #[trigger] p.isr[i])
                    &&& q.leader == -1
                    &&& q.epoch == p.epoch
                    &&& q.isr == p.isr
                },
            }
        }),
{
    lemma_first_alive(p.isr, bs);
    assert forall|x: u32| #[trigger] living(p.isr, bs).contains(x) <==> p.isr.contains(x)
        && is_alive(bs, x) by {
        lemma_living(p.isr, bs, x);
    }
}

/// No election lowers an epoch, and no partition gets another leader in an old
/// epoch.
pub proof fn law_epochs_rise(p: PartitionInfo, bs: Seq<BrokerInfo>)
    requires
        p.epoch < u64::MAX,
    ensures
        elected(p, bs).epoch >= p.epoch,
        elected(p, bs).leader != p.leader && elected(p, bs).leader != -1 ==> elected(p, bs).epoch
            > p.epoch,
{
}

/// An election settles a partition: with the same brokers alive, a second one
/// changes nothing. (The ids fit the signed leader field; a larger one reads as
/// no leader there.)
pub proof fn law_election_settles(p: PartitionInfo, bs: Seq<BrokerInfo>)
    requires
        p.epoch < u64::MAX,
        forall|i: int| 0 <= i < p.isr.len() ==> (#[trigger] p.isr[i]) <= i32::MAX,
    ensures
        elected(elected(p, bs), bs) == elected(p, bs),
{
    lemma_first_alive(p.isr, bs);
    if let Some(id) = first_alive(p.isr, bs) {
        let i = choose|i: int| 0 <= i < p.isr.len() && p.isr[i] == id;
        assert(p.isr[i] <= i32::MAX);
        assert(as_leader(id) == id);
        assert(as_leader(id) as u32 == id);
    }
}

/// A partition is sound: the ISR is a part of the replicas, not empty, and the
/// leader, where there is one, is in it.
pub open spec fn sound(p: PartitionInfo) -> bool {
    &&& all_in(p.isr, p.replicas)
    &&& p.isr.len() > 0
    &&& p.leader == -1 || p.isr.contains(bits32(p.leader) as u32)
}

/// An election keeps a partition sound.
pub proof fn law_election_sound(p: PartitionInfo, bs: Seq<BrokerInfo>)
    requires
        sound(p),
        p.epoch < u64::MAX,
    ensures
        sound(elected(p, bs)),
{
    law_election(p, bs);
    let q = elected(p, bs);
    if !(p.leader >= 0 && is_alive(bs, p.leader as u32)) {
        if let Some(id) = first_alive(p.isr, bs) {
            assert(q.isr.contains(id));
            assert(q.isr.len() > 0);
            assert forall|i: int| 0 <= i < q.isr.len() implies q.replicas.contains(
                #[trigger] q.isr[i],
            ) by {
                assert(q.isr.contains(q.isr[i]));
                assert(p.isr.contains(q.isr[i]));
                let k = choose|k: int| 0 <= k < p.isr.len() && p.isr[k] == q.isr[i];
                assert(p.replicas.contains(p.isr[k]));
            }
            assert(bits32(as_leader(id)) == id);
        }
    }
}

/// An ISR that the controller accepts keeps a partition sound, and every other
/// field of it as it was: what a leader proposes changes nothing but the ISR.
pub proof fn law_alter_sound(
    s: StateView,
    name: Seq<char>,
    partition: u32,
    epoch: u64,
    isr: Seq<u32>,
)
    requires
        s.version < u64::MAX,
        topic_at(s.topics, name) is Some,
        0 <= topic_at(s.topics, name)->0 < s.topics.len(),
        partition < s.topics[topic_at(s.topics, name)->0].parts.len(),
        sound(s.topics[topic_at(s.topics, name)->0].parts[partition as int]),
    ensures
        ({
            let t = topic_at(s.topics, name)->0;
            let p = s.topics[t].parts[partition as int];
            let q = altered(s, name, partition, epoch, isr).topics[t].parts[partition as int];
            &&& sound(q)
            &&& q.leader == p.leader
            &&& q.epoch == p.epoch
            &&& q.replicas == p.replicas
            &&& q.isr != p.isr ==> epoch == p.epoch
        }),
{
}

pub proof fn lemma_mod_distinct(a: int, b: int, n: int)
    requires
        0 <= a < b < a + n,
        n > 0,
    ensures
        a % n != b % n,
{
    if a % n == b % n {
        vstd::arithmetic::div_mod::lemma_fundamental_div_mod(a, n);
        vstd::arithmetic::div_mod::lemma_fundamental_div_mod(b, n);
        let k = b / n - a / n;
        assert(b - a == n * k) by (nonlinear_arith)
            requires
                a == n * (a / n) + a % n,
                b == n * (b / n) + b % n,
                a % n == b % n,
                k == b / n - a / n,
        ;
        assert(k >= 1) by (nonlinear_arith)
            requires
                b - a == n * k,
                b > a,
                n > 0,
        ;
        assert(n * k >= n) by (nonlinear_arith)
            requires
                k >= 1,
                n > 0,
        ;
    }
}

/// The replicas of a new partition are different brokers, all of them alive,
/// and the partition starts sound, led by the first of them.
pub proof fn law_placement(ids: Seq<u32>, p: int, rf: nat)
    requires
        rising_ids(ids),
        1 <= rf <= ids.len(),
        p >= 0,
    ensures
        ({
            let r = placement(ids, p, rf);
            &&& r.len() == rf
            &&& forall|i: int, j: int| 0 <= i < j < r.len() ==> r[i] != r[j]
            &&& forall|i: int| 0 <= i < r.len() ==> ids.contains(#[trigger] r[i])
        }),
        sound(new_part(ids, p, rf)),
{
    let r = placement(ids, p, rf);
    let n = ids.len() as int;
    assert forall|i: int, j: int| 0 <= i < j < r.len() implies r[i] != r[j] by {
        lemma_mod_distinct(p + i, p + j, n);
        vstd::arithmetic::div_mod::lemma_mod_bound(p + i, n);
        vstd::arithmetic::div_mod::lemma_mod_bound(p + j, n);
        let a = (p + i) % n;
        let b = (p + j) % n;
        assert(ids[a] != ids[b]) by {
            if a < b {
                assert(ids[a] < ids[b]);
            } else {
                assert(ids[b] < ids[a]);
            }
        }
    }
    assert forall|i: int| 0 <= i < r.len() implies ids.contains(#[trigger] r[i]) by {
        vstd::arithmetic::div_mod::lemma_mod_bound(p + i, n);
    }
    let part = new_part(ids, p, rf);
    assert(bits32(as_leader(r[0])) == r[0]);
    assert(part.isr[0] == r[0]);
}

/// The living ids of brokers in order are in order.
pub proof fn lemma_living_rise(bs: Seq<BrokerInfo>)
    requires
        forall|i: int, j: int| 0 <= i < j < bs.len() ==> bs[i].id < bs[j].id,
    ensures
        rising_ids(super::living_ids(bs)),
        super::living_ids(bs).len() > 0 ==> bs.len() > 0 && super::living_ids(bs).last()
            <= bs.last().id,
    decreases bs.len(),
{
    if bs.len() > 0 {
        let head = bs.drop_last();
        lemma_living_rise(head);
        if head.len() > 0 {
            assert(head.last() == bs[bs.len() - 2]);
            assert(bs[bs.len() - 2].id < bs[bs.len() - 1].id);
        }
        let l = super::living_ids(head);
        let m = super::living_ids(bs);
        assert forall|i: int, j: int| 0 <= i < j < m.len() implies m[i] < m[j] by {
            if bs.last().alive && j == m.len() - 1 {
                assert(l[i] <= l[l.len() - 1]);
            }
        }
    }
}

proof fn lemma_gather_brokers(bs: Seq<BrokerInfo>, n: int)
    requires
        forall|i: int, j: int| 0 <= i < j < bs.len() ==> bs[i].id < bs[j].id,
        0 <= n <= bs.len(),
    ensures
        gathered_brokers(bs.take(n)) == bs.take(n).map_values(|b: BrokerInfo| forgotten(b)),
    decreases n,
{
    if n == 0 {
        assert(bs.take(0).map_values(|b: BrokerInfo| forgotten(b)) =~= Seq::empty());
    } else {
        lemma_gather_brokers(bs, n - 1);
        assert(bs.take(n).drop_last() =~= bs.take(n - 1));
        let out = bs.take(n - 1).map_values(|b: BrokerInfo| forgotten(b));
        if n > 1 {
            assert(out.last().id == bs[n - 2].id);
            assert(bs[n - 2].id < bs[n - 1].id);
        }
        assert(out.push(forgotten(bs[n - 1])) =~= bs.take(n).map_values(
            |b: BrokerInfo| forgotten(b),
        ));
    }
}

proof fn lemma_gather_topics(ts: Seq<TopicInfo>, n: int)
    requires
        topics_ok(ts),
        0 <= n <= ts.len(),
    ensures
        gathered_topics(ts.take(n)) == ts.take(n),
    decreases n,
{
    if n == 0 {
        assert(ts.take(0) =~= Seq::empty());
    } else {
        lemma_gather_topics(ts, n - 1);
        assert(ts.take(n).drop_last() =~= ts.take(n - 1));
        let out = ts.take(n - 1);
        if n > 1 {
            assert(out.last() == ts[n - 2]);
            assert(text_le(ts[n - 2].name, ts[n - 1].name) && ts[n - 2].name != ts[n - 1].name);
        }
        assert(out.push(ts[n - 1]) =~= ts.take(n));
    }
}

/// A snapshot loads as the state that it was made of, with every broker's
/// liveness forgotten, where its lengths fit their fields.
pub proof fn law_snapshot_roundtrip(s: State)
    requires
        s.ok(),
        fits(snapshot_vals(s)),
    ensures
        snapshot_fault(snapshot_bytes(s)) is None,
        parse(snapshot_row(), snapshot_bytes(s).skip(4)) == Ok::<(Vals, Seq<u8>), Fault>(
            (snapshot_vals(s), Seq::empty()),
        ),
        gathered(s@) == (StateView {
            version: s@.version,
            brokers: s@.brokers.map_values(|b: BrokerInfo| forgotten(b)),
            topics: s@.topics,
        }),
{
    lemma_pow256_values();
    law_le_roundtrip(SNAPSHOT_MAGIC as nat, 4);
    let bytes = snapshot_bytes(s);
    let body = encode(snapshot_vals(s));
    assert(bytes.take(4) =~= le(SNAPSHOT_MAGIC as nat, 4));
    assert(bytes.skip(4) =~= body + Seq::<u8>::empty());
    reveal_with_fuel(shaped, 4);
    lemma_host_shaped(s.brokers@);
    lemma_named_shaped(s.topics@);
    law_parse_encode(snapshot_vals(s), snapshot_row(), Seq::empty());
    lemma_gather_brokers(s@.brokers, s@.brokers.len() as int);
    lemma_gather_topics(s@.topics, s@.topics.len() as int);
    assert(s@.brokers.take(s@.brokers.len() as int) =~= s@.brokers);
    assert(s@.topics.take(s@.topics.len() as int) =~= s@.topics);
}

/// The metadata of a consistent state can be encoded.
pub proof fn law_meta_encodable(m: ClusterMeta, s: StateView)
    requires
        state_ok(s),
        meta_says(m, s),
    ensures
        texts_fit(cluster_vals(m)),
{
    reveal_with_fuel(texts_fit, 6);
    let brokers = addr_list(m.brokers@);
    assert forall|i: int| 0 <= i < brokers->List_0.len() implies texts_fit(
        #[trigger] brokers->List_0[i],
    ) by {
        assert(short(s.brokers[i].addr));
        assert(m.brokers@[i].1@ == s.brokers[i].addr);
    }
    let peers = addr_list(m.peers@);
    assert forall|i: int| 0 <= i < peers->List_0.len() implies texts_fit(
        #[trigger] peers->List_0[i],
    ) by {
        assert(short(s.brokers[i].peer));
        assert(m.peers@[i].1@ == s.brokers[i].peer);
    }
    let topics = topic_list(m.topics@);
    assert forall|i: int| 0 <= i < topics->List_0.len() implies texts_fit(
        #[trigger] topics->List_0[i],
    ) by {
        assert(topic_says(m.topics@[i], s.topics[i]));
        assert(short(s.topics[i].name));
        lemma_partitions_fit(m.topics@[i].partitions@);
    }
}

} // verus!
