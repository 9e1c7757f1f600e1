//! The controller: the cluster's metadata brain, deliberately boring.
//!
//! Single and static (the documented SPOF simplification — real systems make
//! this a Raft group, which is exactly where consensus belongs and the only
//! place it's paid for). It tracks broker liveness by heartbeat, owns the
//! (replicas, leader, leader_epoch, ISR) tuple per partition, elects leaders
//! from the ISR only (no unclean elections), and asks for every change to be
//! persisted as an fsynced, atomically-renamed snapshot.

pub mod laws;
pub mod serve;
pub mod snapshot;
pub mod state_laws;

use crate::codec::{bits32, from_bits32, signed32, to_bits32};
use crate::ids::{all_in, copy_ids, has_id, ids_within, same_ids};
use crate::order::{
    lemma_text_le_antisym, lemma_text_le_total, lemma_text_le_trans, text_before, text_le,
};
use crate::proto::request::request_vals;
use crate::proto::schema::texts_fit;
use crate::proto::{ClusterMeta, ErrorCode, PartitionMeta, Request, Response, TopicMeta};
use snapshot::snapshot_bytes;
use vstd::prelude::*;
use vstd::string::*;
use vstd::utf8::*;

verus! {

#[derive(Debug, Clone)]
pub struct ControllerConfig {
    pub state_file: String,
    /// A broker missing heartbeats for this long is declared dead.
    pub session_timeout_ms: u64,
}

#[derive(Debug)]
pub struct BrokerState {
    pub id: u32,
    pub addr: String,
    pub peer_addr: String,
    pub alive: bool,
    pub last_heartbeat_ms: u64,
}

#[derive(Debug)]
pub struct PartitionState {
    pub leader: i32,
    pub leader_epoch: u64,
    pub replicas: Vec<u32>,
    pub isr: Vec<u32>,
}

#[derive(Debug)]
pub struct TopicState {
    pub name: String,
    pub partitions: Vec<PartitionState>,
}

/// What the controller knows: brokers in the order of their ids, topics in the
/// order of their names.
#[derive(Debug)]
pub struct State {
    pub version: u64,
    pub brokers: Vec<BrokerState>,
    pub topics: Vec<TopicState>,
}

/// A broker.
pub struct BrokerInfo {
    pub id: u32,
    pub addr: Seq<char>,
    pub peer: Seq<char>,
    pub alive: bool,
    pub last: u64,
}

/// A partition.
pub struct PartitionInfo {
    pub leader: i32,
    pub epoch: u64,
    pub replicas: Seq<u32>,
    pub isr: Seq<u32>,
}

/// A topic.
pub struct TopicInfo {
    pub name: Seq<char>,
    pub parts: Seq<PartitionInfo>,
}

/// What the controller knows.
pub struct StateView {
    pub version: u64,
    pub brokers: Seq<BrokerInfo>,
    pub topics: Seq<TopicInfo>,
}

impl View for BrokerState {
    type V = BrokerInfo;

    open spec fn view(&self) -> BrokerInfo {
        BrokerInfo {
            id: self.id,
            addr: self.addr@,
            peer: self.peer_addr@,
            alive: self.alive,
            last: self.last_heartbeat_ms,
        }
    }
}

impl View for PartitionState {
    type V = PartitionInfo;

    open spec fn view(&self) -> PartitionInfo {
        PartitionInfo {
            leader: self.leader,
            epoch: self.leader_epoch,
            replicas: self.replicas@,
            isr: self.isr@,
        }
    }
}

impl View for TopicState {
    type V = TopicInfo;

    open spec fn view(&self) -> TopicInfo {
        TopicInfo { name: self.name@, parts: parts_view(self.partitions@) }
    }
}

impl View for State {
    type V = StateView;

    open spec fn view(&self) -> StateView {
        StateView {
            version: self.version,
            brokers: brokers_view(self.brokers@),
            topics: topics_view(self.topics@),
        }
    }
}

pub open spec fn parts_view(v: Seq<PartitionState>) -> Seq<PartitionInfo> {
    v.map_values(|p: PartitionState| p@)
}

pub open spec fn brokers_view(v: Seq<BrokerState>) -> Seq<BrokerInfo> {
    v.map_values(|b: BrokerState| b@)
}

pub open spec fn topics_view(v: Seq<TopicState>) -> Seq<TopicInfo> {
    v.map_values(|t: TopicState| t@)
}

/// Whether a text fits a frame's length field.
pub open spec fn short(s: Seq<char>) -> bool {
    encode_utf8(s).len() <= 0xffff
}

/// Brokers are in the order of their ids, topics in the order of their names,
/// none twice, and every text fits a frame.
pub open spec fn state_ok(s: StateView) -> bool {
    &&& brokers_ok(s.brokers)
    &&& topics_ok(s.topics)
}

pub open spec fn brokers_ok(bs: Seq<BrokerInfo>) -> bool {
    &&& forall|i: int, j: int| 0 <= i < j < bs.len() ==> bs[i].id < bs[j].id
    &&& forall|i: int|
        0 <= i < bs.len() ==> short((#[trigger] bs[i]).addr) && short(bs[i].peer)
}

pub open spec fn topics_ok(ts: Seq<TopicInfo>) -> bool {
    &&& forall|i: int, j: int|
        0 <= i < j < ts.len() ==> text_le((#[trigger] ts[i]).name, (#[trigger] ts[j]).name)
            && ts[i].name != ts[j].name
    &&& forall|i: int|
        0 <= i < ts.len() ==> short((#[trigger] ts[i]).name) && ts[i].parts.len() <= u32::MAX
}

/// Whether a broker is there and alive.
pub open spec fn is_alive(bs: Seq<BrokerInfo>, id: u32) -> bool {
    exists|i: int| 0 <= i < bs.len() && (#[trigger] bs[i]).id == id && bs[i].alive
}

/// The first of `ids` that is alive.
pub open spec fn first_alive(ids: Seq<u32>, bs: Seq<BrokerInfo>) -> Option<u32>
    decreases ids.len(),
{
    if ids.len() == 0 {
        None
    } else if is_alive(bs, ids[0]) {
        Some(ids[0])
    } else {
        first_alive(ids.skip(1), bs)
    }
}

/// Those of `ids` that are alive, in their order.
pub open spec fn living(ids: Seq<u32>, bs: Seq<BrokerInfo>) -> Seq<u32>
    decreases ids.len(),
{
    if ids.len() == 0 {
        Seq::empty()
    } else if is_alive(bs, ids.last()) {
        living(ids.drop_last(), bs).push(ids.last())
    } else {
        living(ids.drop_last(), bs)
    }
}

/// The leader field for a broker id.
pub open spec fn as_leader(id: u32) -> i32 {
    signed32(id as nat) as i32
}

/// A partition after an election where one is needed: a live leader stays; else
/// the first live ISR member leads in a new epoch, and the ISR loses its dead
/// members; else the partition is offline.
pub open spec fn elected(p: PartitionInfo, bs: Seq<BrokerInfo>) -> PartitionInfo {
    if p.leader >= 0 && is_alive(bs, p.leader as u32) {
        p
    } else {
        match first_alive(p.isr, bs) {
            Some(id) => PartitionInfo {
                leader: as_leader(id),
                epoch: (p.epoch + 1) as u64,
                replicas: p.replicas,
                isr: living(p.isr, bs),
            },
            None => PartitionInfo { leader: -1i32, ..p },
        }
    }
}

pub open spec fn elected_parts(ps: Seq<PartitionInfo>, bs: Seq<BrokerInfo>) -> Seq<PartitionInfo> {
    ps.map_values(|p: PartitionInfo| elected(p, bs))
}

pub open spec fn elected_topic(t: TopicInfo, bs: Seq<BrokerInfo>) -> TopicInfo {
    TopicInfo { name: t.name, parts: elected_parts(t.parts, bs) }
}

/// All topics after an election where one is needed.
pub open spec fn elected_topics(ts: Seq<TopicInfo>, bs: Seq<BrokerInfo>) -> Seq<TopicInfo> {
    ts.map_values(|t: TopicInfo| elected_topic(t, bs))
}

/// Whether an election changes any of `ps`.
pub open spec fn parts_change(ps: Seq<PartitionInfo>, bs: Seq<BrokerInfo>) -> bool
    decreases ps.len(),
{
    ps.len() > 0 && (parts_change(ps.drop_last(), bs) || elected(ps.last(), bs) != ps.last())
}

/// Whether an election changes any partition.
pub open spec fn topics_change(ts: Seq<TopicInfo>, bs: Seq<BrokerInfo>) -> bool
    decreases ts.len(),
{
    ts.len() > 0 && (topics_change(ts.drop_last(), bs) || parts_change(ts.last().parts, bs))
}

/// No partition is in its last possible epoch.
pub open spec fn epochs_left(ts: Seq<TopicInfo>) -> bool {
    forall|i: int, k: int|
        0 <= i < ts.len() && 0 <= k < ts[i].parts.len() ==> (#[trigger] ts[i].parts[k]).epoch
            < u64::MAX
}

/// Room for one change more.
pub open spec fn state_room(s: StateView) -> bool {
    s.version < u64::MAX && epochs_left(s.topics)
}

/// Brokers with one put in its place by id; it replaces one with its id.
pub open spec fn with_broker(bs: Seq<BrokerInfo>, b: BrokerInfo) -> Seq<BrokerInfo>
    decreases bs.len(),
{
    if bs.len() == 0 || bs.last().id < b.id {
        bs.push(b)
    } else if bs.last().id == b.id {
        bs.drop_last().push(b)
    } else {
        with_broker(bs.drop_last(), b).push(bs.last())
    }
}

/// Topics with one put in its place by name; it replaces one with its name.
pub open spec fn with_topic(ts: Seq<TopicInfo>, t: TopicInfo) -> Seq<TopicInfo>
    decreases ts.len(),
{
    if ts.len() == 0 {
        ts.push(t)
    } else if ts.last().name == t.name {
        ts.drop_last().push(t)
    } else if text_le(ts.last().name, t.name) {
        ts.push(t)
    } else {
        with_topic(ts.drop_last(), t).push(ts.last())
    }
}

/// The place of a broker.
pub open spec fn broker_at(bs: Seq<BrokerInfo>, id: u32) -> Option<int>
    decreases bs.len(),
{
    if bs.len() == 0 {
        None
    } else if bs.last().id == id {
        Some(bs.len() - 1)
    } else {
        broker_at(bs.drop_last(), id)
    }
}

/// The place of a topic.
pub open spec fn topic_at(ts: Seq<TopicInfo>, name: Seq<char>) -> Option<int>
    decreases ts.len(),
{
    if ts.len() == 0 {
        None
    } else if ts.last().name == name {
        Some(ts.len() - 1)
    } else {
        topic_at(ts.drop_last(), name)
    }
}

/// A state after a step that may have changed it: a change gets a new version.
pub open spec fn committed(s: StateView, changed: bool) -> StateView {
    if changed {
        StateView { version: (s.version + 1) as u64, ..s }
    } else {
        s
    }
}

/// A state after the elections that brokers call for.
pub open spec fn settled(s: StateView) -> StateView {
    StateView { topics: elected_topics(s.topics, s.brokers), ..s }
}

/// A registration: the broker is alive at its addresses, and leaders are
/// elected where needed.
pub open spec fn registered(
    s: StateView,
    id: u32,
    addr: Seq<char>,
    peer: Seq<char>,
    now_ms: u64,
) -> StateView {
    let b = BrokerInfo { id, addr, peer, alive: true, last: now_ms };
    let same = match broker_at(s.brokers, id) {
        Some(i) => s.brokers[i].alive && s.brokers[i].addr == addr && s.brokers[i].peer == peer,
        None => false,
    };
    let with = StateView { brokers: with_broker(s.brokers, b), ..s };
    committed(settled(with), !same || topics_change(s.topics, with.brokers))
}

/// A heartbeat of a known broker: it is alive, and where it was dead, leaders
/// are elected where needed.
pub open spec fn heartbeaten(s: StateView, i: int, now_ms: u64) -> StateView {
    let b = s.brokers[i];
    let with = StateView {
        brokers: s.brokers.update(i, BrokerInfo { alive: true, last: now_ms, ..b }),
        ..s
    };
    if b.alive {
        with
    } else {
        committed(settled(with), topics_change(s.topics, with.brokers))
    }
}

/// The ids of the brokers that are alive, in order.
pub open spec fn living_ids(bs: Seq<BrokerInfo>) -> Seq<u32>
    decreases bs.len(),
{
    if bs.len() == 0 {
        Seq::empty()
    } else if bs.last().alive {
        living_ids(bs.drop_last()).push(bs.last().id)
    } else {
        living_ids(bs.drop_last())
    }
}

/// The replicas of partition `p`: `rf` brokers in a ring, starting `p` places on.
pub open spec fn placement(ids: Seq<u32>, p: int, rf: nat) -> Seq<u32> {
    Seq::new(rf, |i: int| ids[(p + i) % (ids.len() as int)])
}

pub open spec fn new_part(ids: Seq<u32>, p: int, rf: nat) -> PartitionInfo {
    let replicas = placement(ids, p, rf);
    PartitionInfo { leader: as_leader(replicas[0]), epoch: 1, replicas, isr: replicas }
}

pub open spec fn new_parts(ids: Seq<u32>, n: nat, rf: nat) -> Seq<PartitionInfo> {
    Seq::new(n, |p: int| new_part(ids, p, rf))
}

/// The replication factor asked for; 0 is treated as 1.
pub open spec fn at_least_one(rf: u32) -> nat {
    if rf == 0 {
        1
    } else {
        rf as nat
    }
}

/// What creating a topic answers.
pub open spec fn create_error(s: StateView, name: Seq<char>, n: u32, rf: u32) -> ErrorCode {
    if topic_at(s.topics, name) is Some {
        ErrorCode::TopicExists
    } else if n == 0 || n > 1024 || at_least_one(rf) > living_ids(s.brokers).len() {
        ErrorCode::Malformed
    } else {
        ErrorCode::NoError
    }
}

/// A state with a new topic.
pub open spec fn created(s: StateView, name: Seq<char>, n: u32, rf: u32) -> StateView {
    if create_error(s, name, n, rf) == ErrorCode::NoError {
        let t = TopicInfo {
            name,
            parts: new_parts(living_ids(s.brokers), n as nat, at_least_one(rf)),
        };
        committed(StateView { topics: with_topic(s.topics, t), ..s }, true)
    } else {
        s
    }
}

/// What an ISR proposal answers: only the leader of the current epoch may
/// propose, and only a set of replicas with the leader in it.
pub open spec fn alter_error(
    s: StateView,
    name: Seq<char>,
    partition: u32,
    epoch: u64,
    isr: Seq<u32>,
) -> ErrorCode {
    match topic_at(s.topics, name) {
        None => ErrorCode::UnknownTopicOrPartition,
        Some(t) => if partition >= s.topics[t].parts.len() {
            ErrorCode::UnknownTopicOrPartition
        } else {
            let p = s.topics[t].parts[partition as int];
            if epoch != p.epoch {
                ErrorCode::FencedEpoch
            } else if isr.len() == 0 || !isr.contains(bits32(p.leader) as u32) || !all_in(
                isr,
                p.replicas,
            ) {
                ErrorCode::Malformed
            } else {
                ErrorCode::NoError
            }
        },
    }
}

/// A state with an ISR put in place.
pub open spec fn altered(
    s: StateView,
    name: Seq<char>,
    partition: u32,
    epoch: u64,
    isr: Seq<u32>,
) -> StateView {
    if alter_error(s, name, partition, epoch, isr) == ErrorCode::NoError {
        let t = topic_at(s.topics, name)->0;
        let topic = s.topics[t];
        let p = topic.parts[partition as int];
        let q = PartitionInfo { isr, ..p };
        let parts = topic.parts.update(partition as int, q);
        committed(
            StateView { topics: s.topics.update(t, TopicInfo { parts, ..topic }), ..s },
            p.isr != isr,
        )
    } else {
        s
    }
}

/// A broker that missed heartbeats for longer than `timeout_ms` is dead.
pub open spec fn swept_broker(b: BrokerInfo, now_ms: u64, timeout_ms: u64) -> BrokerInfo {
    if b.alive && now_ms - b.last > timeout_ms {
        BrokerInfo { alive: false, ..b }
    } else {
        b
    }
}

pub open spec fn swept_brokers(bs: Seq<BrokerInfo>, now_ms: u64, timeout_ms: u64) -> Seq<
    BrokerInfo,
> {
    bs.map_values(|b: BrokerInfo| swept_broker(b, now_ms, timeout_ms))
}

/// Whether a sweep finds a dead broker.
pub open spec fn any_dead(bs: Seq<BrokerInfo>, now_ms: u64, timeout_ms: u64) -> bool
    decreases bs.len(),
{
    bs.len() > 0 && (any_dead(bs.drop_last(), now_ms, timeout_ms) || (bs.last().alive && now_ms
        - bs.last().last > timeout_ms))
}

/// A state after a sweep: the dead are declared dead, and where there are any,
/// leaders are elected where needed.
pub open spec fn swept(s: StateView, now_ms: u64, timeout_ms: u64) -> StateView {
    let with = StateView { brokers: swept_brokers(s.brokers, now_ms, timeout_ms), ..s };
    if any_dead(s.brokers, now_ms, timeout_ms) {
        committed(settled(with), true)
    } else {
        s
    }
}

/// The metadata of a partition says what the state says.
pub open spec fn part_says(m: PartitionMeta, i: int, p: PartitionInfo) -> bool {
    &&& m.partition == i
    &&& m.leader == p.leader
    &&& m.leader_epoch == p.epoch
    &&& m.replicas@ == p.replicas
    &&& m.isr@ == p.isr
}

pub open spec fn topic_says(m: TopicMeta, t: TopicInfo) -> bool {
    &&& m.name@ == t.name
    &&& m.partitions@.len() == t.parts.len()
    &&& forall|i: int|
        0 <= i < t.parts.len() ==> part_says(#[trigger] m.partitions@[i], i, t.parts[i])
}

/// Cluster metadata says what the state says.
pub open spec fn meta_says(m: ClusterMeta, s: StateView) -> bool {
    &&& m.version == s.version
    &&& m.brokers@.len() == s.brokers.len()
    &&& forall|i: int|
        0 <= i < s.brokers.len() ==> (#[trigger] m.brokers@[i]).0 == s.brokers[i].id
            && m.brokers@[i].1@ == s.brokers[i].addr
    &&& m.peers@.len() == s.brokers.len()
    &&& forall|i: int|
        0 <= i < s.brokers.len() ==> (#[trigger] m.peers@[i]).0 == s.brokers[i].id
            && m.peers@[i].1@ == s.brokers[i].peer
    &&& m.topics@.len() == s.topics.len()
    &&& forall|i: int|
        0 <= i < s.topics.len() ==> topic_says(#[trigger] m.topics@[i], s.topics[i])
}

proof fn lemma_with_broker(bs: Seq<BrokerInfo>, b: BrokerInfo, k: int)
    requires
        0 <= k <= bs.len(),
        forall|i: int, j: int| 0 <= i < j < bs.len() ==> bs[i].id < bs[j].id,
        forall|i: int| k <= i < bs.len() ==> bs[i].id > b.id,
        k > 0 ==> bs[k - 1].id <= b.id,
    ensures
        with_broker(bs, b) == (if k > 0 && bs[k - 1].id == b.id {
            bs.update(k - 1, b)
        } else {
            bs.insert(k, b)
        }),
        k > 0 && bs[k - 1].id == b.id ==> broker_at(bs, b.id) == Some(k - 1),
        !(k > 0 && bs[k - 1].id == b.id) ==> broker_at(bs, b.id) is None,
    decreases bs.len(),
{
    if k == bs.len() {
        if k > 0 && bs[k - 1].id == b.id {
            assert(bs.drop_last().push(b) =~= bs.update(k - 1, b));
        } else {
            assert(bs.push(b) =~= bs.insert(k, b));
            lemma_no_broker(bs, b.id);
        }
    } else {
        let head = bs.drop_last();
        lemma_with_broker(head, b, k);
        if k > 0 && bs[k - 1].id == b.id {
            assert(head.update(k - 1, b).push(bs.last()) =~= bs.update(k - 1, b));
        } else {
            assert(head.insert(k, b).push(bs.last()) =~= bs.insert(k, b));
        }
    }
}

pub proof fn lemma_no_broker(bs: Seq<BrokerInfo>, id: u32)
    requires
        forall|i: int| 0 <= i < bs.len() ==> (#[trigger] bs[i]).id != id,
    ensures
        broker_at(bs, id) is None,
    decreases bs.len(),
{
    if bs.len() > 0 {
        assert(bs.last() == bs[bs.len() - 1]);
        let head = bs.drop_last();
        assert forall|i: int| 0 <= i < head.len() implies (#[trigger] head[i]).id != id by {
            assert(head[i] == bs[i]);
        }
        lemma_no_broker(head, id);
    }
}

pub proof fn lemma_broker_at(bs: Seq<BrokerInfo>, id: u32, k: int)
    requires
        0 <= k < bs.len(),
        bs[k].id == id,
        forall|i: int, j: int| 0 <= i < j < bs.len() ==> bs[i].id < bs[j].id,
    ensures
        broker_at(bs, id) == Some(k),
    decreases bs.len(),
{
    if k < bs.len() - 1 {
        assert(bs[k].id < bs[bs.len() - 1].id);
        lemma_broker_at(bs.drop_last(), id, k);
    }
}

pub proof fn lemma_topic_at(ts: Seq<TopicInfo>, name: Seq<char>, k: int)
    requires
        0 <= k < ts.len(),
        ts[k].name == name,
        topics_ok(ts),
    ensures
        topic_at(ts, name) == Some(k),
    decreases ts.len(),
{
    if k < ts.len() - 1 {
        assert(ts[k].name != ts[ts.len() - 1].name);
        lemma_topics_head(ts);
        lemma_topic_at(ts.drop_last(), name, k);
    }
}

proof fn lemma_topics_head(ts: Seq<TopicInfo>)
    requires
        topics_ok(ts),
        ts.len() > 0,
    ensures
        topics_ok(ts.drop_last()),
{
    let head = ts.drop_last();
    assert(forall|i: int| 0 <= i < head.len() ==> head[i] == ts[i]);
}

pub proof fn lemma_no_topic(ts: Seq<TopicInfo>, name: Seq<char>)
    requires
        forall|i: int| 0 <= i < ts.len() ==> (#[trigger] ts[i]).name != name,
    ensures
        topic_at(ts, name) is None,
    decreases ts.len(),
{
    if ts.len() > 0 {
        assert(ts.last() == ts[ts.len() - 1]);
        let head = ts.drop_last();
        assert forall|i: int| 0 <= i < head.len() implies (#[trigger] head[i]).name != name by {
            assert(head[i] == ts[i]);
        }
        lemma_no_topic(head, name);
    }
}

/// Where a topic goes among others.
proof fn lemma_with_topic(ts: Seq<TopicInfo>, t: TopicInfo, k: int)
    requires
        0 <= k <= ts.len(),
        topics_ok(ts),
        forall|i: int| k <= i < ts.len() ==> !text_le((#[trigger] ts[i]).name, t.name),
        k > 0 ==> text_le(ts[k - 1].name, t.name),
        short(t.name),
        t.parts.len() <= u32::MAX,
    ensures
        with_topic(ts, t) == (if k > 0 && ts[k - 1].name == t.name {
            ts.update(k - 1, t)
        } else {
            ts.insert(k, t)
        }),
        topics_ok(with_topic(ts, t)),
    decreases ts.len(),
{
    let out = if k > 0 && ts[k - 1].name == t.name {
        ts.update(k - 1, t)
    } else {
        ts.insert(k, t)
    };
    if k == ts.len() {
        if k > 0 && ts[k - 1].name == t.name {
            assert(ts.drop_last().push(t) =~= out);
        } else {
            assert(ts.push(t) =~= out);
        }
    } else {
        let head = ts.drop_last();
        lemma_topics_head(ts);
        assert(!text_le(ts[ts.len() - 1].name, t.name));
        lemma_text_le_total(t.name, t.name);
        assert(ts.last().name != t.name);
        assert forall|i: int| k <= i < head.len() implies !text_le(
            (#[trigger] head[i]).name,
            t.name,
        ) by {
            assert(head[i] == ts[i]);
        }
        lemma_with_topic(head, t, k);
        if k > 0 && ts[k - 1].name == t.name {
            assert(head.update(k - 1, t).push(ts.last()) =~= out);
        } else {
            assert(head.insert(k, t).push(ts.last()) =~= out);
        }
    }
    assert forall|i: int, j: int| 0 <= i < j < out.len() implies text_le(
        (#[trigger] out[i]).name,
        (#[trigger] out[j]).name,
    ) && out[i].name != out[j].name by {
        if k > 0 && ts[k - 1].name == t.name {
            assert(out[i].name == ts[i].name);
            assert(out[j].name == ts[j].name);
        } else if i == k {
            assert(out[j] == ts[j - 1]);
            lemma_text_le_total(t.name, ts[j - 1].name);
        } else if j == k {
            assert(out[i] == ts[i]);
            assert(k > 0);
            if i < k - 1 {
                assert(text_le(ts[i].name, ts[k - 1].name));
                lemma_text_le_trans(ts[i].name, ts[k - 1].name, t.name);
                if ts[i].name == t.name {
                    lemma_text_le_antisym(ts[k - 1].name, t.name);
                }
            }
        } else {
            let a = if i < k {
                i
            } else {
                i - 1
            };
            let b = if j < k {
                j
            } else {
                j - 1
            };
            assert(out[i] == ts[a]);
            assert(out[j] == ts[b]);
        }
    }
    assert forall|i: int| 0 <= i < out.len() implies short((#[trigger] out[i]).name)
        && out[i].parts.len() <= u32::MAX by {
        if k > 0 && ts[k - 1].name == t.name {
            assert(out[i].name == ts[i].name);
            assert(i != k - 1 ==> out[i] == ts[i]);
        } else if i < k {
            assert(out[i] == ts[i]);
        } else if i > k {
            assert(out[i] == ts[i - 1]);
        }
    }
}

proof fn lemma_elected_ok(ts: Seq<TopicInfo>, bs: Seq<BrokerInfo>)
    requires
        topics_ok(ts),
    ensures
        topics_ok(elected_topics(ts, bs)),
{
    let out = elected_topics(ts, bs);
    assert(forall|i: int|
        0 <= i < ts.len() ==> (#[trigger] out[i]).name == ts[i].name && out[i].parts.len()
            == ts[i].parts.len());
}

/// Whether a broker is there and alive.
fn broker_alive(brokers: &Vec<BrokerState>, id: u32) -> (r: bool)
    ensures
        r == is_alive(brokers_view(brokers@), id),
{
    let ghost bs = brokers_view(brokers@);
    let mut i: usize = 0;
    while i < brokers.len()
        invariant
            i <= brokers@.len(),
            bs == brokers_view(brokers@),
            forall|k: int| 0 <= k < i ==> !((#[trigger] bs[k]).id == id && bs[k].alive),
        decreases brokers@.len() - i,
    {
        assert(bs[i as int] == brokers@[i as int]@);
        if brokers[i].id == id && brokers[i].alive {
            return true;
        }
        i = i + 1;
    }
    false
}

/// Elects a leader where one is needed; whether anything changed.
fn elect_partition(p: &mut PartitionState, brokers: &Vec<BrokerState>) -> (changed: bool)
    requires
        old(p).leader_epoch < u64::MAX,
    ensures
        final(p)@ == elected(old(p)@, brokers_view(brokers@)),
        changed == (final(p)@ != old(p)@),
{
    let ghost bs = brokers_view(brokers@);
    let ghost before = p@;
    if p.leader >= 0 && broker_alive(brokers, p.leader as u32) {
        return false;
    }
    let ghost isr = p.isr@;
    let mut alive: Vec<u32> = Vec::new();
    let mut candidate: Option<u32> = None;
    let mut i: usize = 0;
    assert(isr.take(0) =~= Seq::empty());
    assert(isr.skip(0) =~= isr);
    while i < p.isr.len()
        invariant
            i <= p.isr@.len(),
            p@ == before,
            isr == p.isr@,
            bs == brokers_view(brokers@),
            alive@ == living(isr.take(i as int), bs),
            candidate is None ==> first_alive(isr, bs) == first_alive(isr.skip(i as int), bs),
            candidate is Some ==> first_alive(isr, bs) == candidate,
        decreases p.isr@.len() - i,
    {
        let id: u32 = p.isr[i];
        proof {
            assert(isr.take(i + 1).drop_last() =~= isr.take(i as int));
            assert(isr.take(i + 1).last() == id);
            assert(isr.skip(i as int)[0] == id);
            assert(isr.skip(i as int).skip(1) =~= isr.skip(i + 1));
        }
        if broker_alive(brokers, id) {
            alive.push(id);
            if candidate.is_none() {
                candidate = Some(id);
            }
        }
        i = i + 1;
    }
    assert(isr.take(i as int) =~= isr);
    assert(isr.skip(i as int) =~= Seq::empty());
    match candidate {
        Some(new_leader) => {
            p.leader = from_bits32(new_leader);
            p.leader_epoch = p.leader_epoch + 1;
            p.isr = alive;
            assert(p@.epoch != before.epoch);
            true
        },
        None => {
            if p.leader != -1 {
                // No unclean election: offline until an ISR member
                // returns. Availability lost, acked data not.
                p.leader = -1;
                return true;
            }
            false
        },
    }
}

/// Elects leaders for the partitions of a topic; whether anything changed.
fn elect_parts(parts: &mut Vec<PartitionState>, brokers: &Vec<BrokerState>) -> (changed: bool)
    requires
        forall|k: int| 0 <= k < old(parts)@.len() ==> (#[trigger] old(parts)@[k]).leader_epoch < u64::MAX,
    ensures
        parts_view(final(parts)@) == elected_parts(
            parts_view(old(parts)@),
            brokers_view(brokers@),
        ),
        changed == parts_change(parts_view(old(parts)@), brokers_view(brokers@)),
{
    let ghost bs = brokers_view(brokers@);
    let ghost before = parts_view(parts@);
    let ghost start = parts@;
    let mut changed: bool = false;
    let mut i: usize = 0;
    let n: usize = parts.len();
    assert(before.take(0) =~= Seq::empty());
    while i < n
        invariant
            n == parts@.len(),
            n == start.len(),
            i <= n,
            before == parts_view(start),
            bs == brokers_view(brokers@),
            forall|k: int| 0 <= k < n ==> (#[trigger] start[k]).leader_epoch < u64::MAX,
            forall|k: int| i <= k < n ==> #[trigger] parts@[k] == start[k],
            forall|k: int| 0 <= k < i ==> (#[trigger] parts@[k])@ == elected(before[k], bs),
            changed == parts_change(before.take(i as int), bs),
        decreases n - i,
    {
        let ghost now = parts@;
        assert(parts@[i as int] == start[i as int]);
        let c: bool = elect_partition(&mut parts[i], brokers);
        proof {
            assert(before.take(i + 1).drop_last() =~= before.take(i as int));
            assert(before.take(i + 1).last() == before[i as int]);
            assert(forall|k: int| 0 <= k < n && k != i ==> #[trigger] parts@[k] == now[k]);
        }
        if c {
            changed = true;
        }
        i = i + 1;
    }
    assert(before.take(n as int) =~= before);
    assert(parts_view(parts@) =~= elected_parts(before, bs));
    changed
}

impl State {
    pub open spec fn ok(self) -> bool {
        state_ok(self@)
    }

    /// A controller that knows nothing yet.
    pub fn new() -> (s: State)
        ensures
            s.ok(),
            s@.version == 0,
            s@.brokers.len() == 0,
            s@.topics.len() == 0,
    {
        State { version: 0, brokers: Vec::new(), topics: Vec::new() }
    }

    /// Elects a leader for every partition whose leader is dead or missing, from
    /// the ISR only (minus dead members). Returns whether anything changed.
    pub fn elect_where_needed(&mut self) -> (changed: bool)
        requires
            old(self).ok(),
            epochs_left(old(self)@.topics),
        ensures
            final(self).ok(),
            final(self)@ == settled(old(self)@),
            changed == topics_change(old(self)@.topics, old(self)@.brokers),
    {
        let ghost bs = brokers_view(self.brokers@);
        let ghost before = topics_view(self.topics@);
        let ghost start = self.topics@;
        let ghost was = self@;
        let mut changed: bool = false;
        let mut i: usize = 0;
        let n: usize = self.topics.len();
        assert(before.take(0) =~= Seq::empty());
        while i < n
            invariant
                n == self.topics@.len(),
                n == start.len(),
                i <= n,
                before == topics_view(start),
                was.topics == before,
                was.brokers == bs,
                self.version == was.version,
                bs == brokers_view(self.brokers@),
                epochs_left(before),
                forall|k: int| i <= k < n ==> #[trigger] self.topics@[k] == start[k],
                forall|k: int|
                    0 <= k < i ==> (#[trigger] self.topics@[k])@ == elected_topic(before[k], bs),
                changed == topics_change(before.take(i as int), bs),
            decreases n - i,
        {
            let ghost now = self.topics@;
            proof {
                assert(now[i as int] == start[i as int]);
                assert(before[i as int] == start[i as int]@);
                assert forall|k: int| 0 <= k < start[i as int].partitions@.len() implies (
                #[trigger] start[i as int].partitions@[k]).leader_epoch < u64::MAX by {
                    assert(before[i as int].parts[k].epoch < u64::MAX);
                }
            }
            let topic: &mut TopicState = &mut self.topics[i];
            let c: bool = elect_parts(&mut topic.partitions, &self.brokers);
            proof {
                assert(before.take(i + 1).drop_last() =~= before.take(i as int));
                assert(before.take(i + 1).last() == before[i as int]);
                assert(forall|k: int|
                    0 <= k < n && k != i ==> #[trigger] self.topics@[k] == now[k]);
            }
            if c {
                changed = true;
            }
            i = i + 1;
        }
        proof {
            assert(before.take(n as int) =~= before);
            assert(topics_view(self.topics@) =~= elected_topics(before, bs));
            lemma_elected_ok(before, bs);
        }
        changed
    }
}

/// The brokers with one put in its place are in order still.
proof fn lemma_put_broker(bs: Seq<BrokerInfo>, b: BrokerInfo, k: int)
    requires
        0 <= k <= bs.len(),
        brokers_ok(bs),
        short(b.addr),
        short(b.peer),
        forall|i: int| k <= i < bs.len() ==> bs[i].id > b.id,
        k > 0 ==> bs[k - 1].id <= b.id,
    ensures
        brokers_ok(with_broker(bs, b)),
{
    lemma_with_broker(bs, b, k);
    let out = with_broker(bs, b);
    let at = if k > 0 && bs[k - 1].id == b.id {
        k - 1
    } else {
        k
    };
    assert forall|i: int, j: int| 0 <= i < j < out.len() implies out[i].id < out[j].id by {
        if at == k {
            let x = if i < k {
                i
            } else {
                i - 1
            };
            let y = if j < k {
                j
            } else {
                j - 1
            };
            if i == k {
                assert(out[j] == bs[j - 1]);
            } else if j == k {
                assert(out[i] == bs[i]);
                assert(bs[i].id <= bs[k - 1].id);
            } else {
                assert(out[i] == bs[x]);
                assert(out[j] == bs[y]);
            }
        } else {
            assert(out[i].id == bs[i].id);
            assert(out[j].id == bs[j].id);
        }
    }
    assert forall|i: int| 0 <= i < out.len() implies short((#[trigger] out[i]).addr) && short(
        out[i].peer,
    ) by {
        if at == k {
            if i < k {
                assert(out[i] == bs[i]);
            } else if i > k {
                assert(out[i] == bs[i - 1]);
            }
        } else if i != at {
            assert(out[i] == bs[i]);
        }
    }
}

impl State {
    /// Puts a broker in its place.
    pub fn put_broker(&mut self, b: BrokerState)
        requires
            old(self).ok(),
            short(b.addr@),
            short(b.peer_addr@),
        ensures
            final(self).ok(),
            final(self)@ == (StateView {
                brokers: with_broker(old(self)@.brokers, b@),
                ..old(self)@
            }),
    {
        let ghost bs = brokers_view(self.brokers@);
        let ghost view = b@;
        let mut k: usize = self.brokers.len();
        while k > 0 && self.brokers[k - 1].id > b.id
            invariant
                k <= self.brokers@.len(),
                bs == brokers_view(self.brokers@),
                view == b@,
                forall|i: int| k <= i < bs.len() ==> (#[trigger] bs[i]).id > view.id,
            decreases k,
        {
            assert(bs[k - 1] == self.brokers@[k - 1]@);
            k = k - 1;
        }
        proof {
            if k > 0 {
                assert(bs[k - 1] == self.brokers@[k - 1]@);
            }
            lemma_with_broker(bs, view, k as int);
            lemma_put_broker(bs, view, k as int);
        }
        if k > 0 && self.brokers[k - 1].id == b.id {
            self.brokers.set(k - 1, b);
            assert(brokers_view(self.brokers@) =~= bs.update(k - 1, view));
        } else {
            self.brokers.insert(k, b);
            assert(brokers_view(self.brokers@) =~= bs.insert(k as int, view));
        }
    }

    /// Puts a topic in its place.
    pub fn put_topic(&mut self, t: TopicState)
        requires
            old(self).ok(),
            short(t.name@),
            t.partitions@.len() <= u32::MAX,
        ensures
            final(self).ok(),
            final(self)@ == (StateView {
                topics: with_topic(old(self)@.topics, t@),
                ..old(self)@
            }),
    {
        let ghost ts = topics_view(self.topics@);
        let ghost view = t@;
        let mut k: usize = self.topics.len();
        while k > 0 && !text_before(self.topics[k - 1].name.as_str(), t.name.as_str())
            invariant
                k <= self.topics@.len(),
                ts == topics_view(self.topics@),
                view == t@,
                forall|i: int| k <= i < ts.len() ==> !text_le((#[trigger] ts[i]).name, view.name),
            decreases k,
        {
            assert(ts[k - 1] == self.topics@[k - 1]@);
            k = k - 1;
        }
        proof {
            if k > 0 {
                assert(ts[k - 1] == self.topics@[k - 1]@);
            }
            lemma_with_topic(ts, view, k as int);
        }
        if k > 0 && self.topics[k - 1].name == t.name {
            self.topics.set(k - 1, t);
            assert(topics_view(self.topics@) =~= ts.update(k - 1, view));
        } else {
            self.topics.insert(k, t);
            assert(topics_view(self.topics@) =~= ts.insert(k as int, view));
        }
    }

    fn find_broker(&self, id: u32) -> (r: Option<usize>)
        requires
            self.ok(),
        ensures
            match broker_at(self@.brokers, id) {
                Some(i) => r matches Some(k) && k == i && k < self.brokers@.len()
                    && self.brokers@[i].id == id,
                None => r is None,
            },
    {
        let ghost bs = self@.brokers;
        let mut i: usize = 0;
        while i < self.brokers.len()
            invariant
                i <= self.brokers@.len(),
                bs == self@.brokers,
                self.ok(),
                forall|k: int| 0 <= k < i ==> (#[trigger] bs[k]).id != id,
            decreases self.brokers@.len() - i,
        {
            assert(bs[i as int] == self.brokers@[i as int]@);
            if self.brokers[i].id == id {
                proof {
                    lemma_broker_at(bs, id, i as int);
                }
                return Some(i);
            }
            i = i + 1;
        }
        proof {
            lemma_no_broker(bs, id);
        }
        None
    }

    fn find_topic(&self, name: &String) -> (r: Option<usize>)
        requires
            self.ok(),
        ensures
            match topic_at(self@.topics, name@) {
                Some(i) => r matches Some(k) && k == i && k < self.topics@.len(),
                None => r is None,
            },
    {
        let ghost ts = self@.topics;
        let mut i: usize = 0;
        while i < self.topics.len()
            invariant
                i <= self.topics@.len(),
                ts == self@.topics,
                self.ok(),
                forall|k: int| 0 <= k < i ==> (#[trigger] ts[k]).name != name@,
            decreases self.topics@.len() - i,
        {
            assert(ts[i as int] == self.topics@[i as int]@);
            if self.topics[i].name == *name {
                proof {
                    lemma_topic_at(ts, name@, i as int);
                }
                return Some(i);
            }
            i = i + 1;
        }
        proof {
            lemma_no_topic(ts, name@);
        }
        None
    }

    /// Bumps the version if there was a change.
    fn commit(&mut self, changed: bool)
        requires
            old(self).ok(),
            old(self)@.version < u64::MAX,
        ensures
            final(self).ok(),
            final(self)@ == committed(old(self)@, changed),
    {
        if changed {
            self.version = self.version + 1;
        }
    }

    /// A broker says where it is.
    pub fn register_broker(&mut self, id: u32, addr: String, peer_addr: String, now_ms: u64)
        requires
            old(self).ok(),
            state_room(old(self)@),
            short(addr@),
            short(peer_addr@),
        ensures
            final(self).ok(),
            final(self)@ == registered(old(self)@, id, addr@, peer_addr@, now_ms),
    {
        let changed: bool = match self.find_broker(id) {
            Some(i) => {
                assert(self@.brokers[i as int] == self.brokers@[i as int]@);
                !self.brokers[i].alive || self.brokers[i].addr != addr
                    || self.brokers[i].peer_addr != peer_addr
            },
            None => true,
        };
        self.put_broker(
            BrokerState { id, addr, peer_addr, alive: true, last_heartbeat_ms: now_ms },
        );
        let elected: bool = self.elect_where_needed();
        self.commit(changed || elected);
    }

    /// A broker says that it is alive; whether it is known.
    pub fn broker_heartbeat(&mut self, id: u32, now_ms: u64) -> (known: bool)
        requires
            old(self).ok(),
            state_room(old(self)@),
        ensures
            final(self).ok(),
            match broker_at(old(self)@.brokers, id) {
                Some(i) => known && final(self)@ == heartbeaten(old(self)@, i, now_ms),
                None => !known && final(self)@ == old(self)@,
            },
    {
        let i: usize = match self.find_broker(id) {
            Some(i) => i,
            None => {
                return false;
            },
        };
        let ghost s = self@;
        assert(s.brokers[i as int] == self.brokers@[i as int]@);
        let was_dead: bool = !self.brokers[i].alive;
        let b: &mut BrokerState = &mut self.brokers[i];
        b.alive = true;
        b.last_heartbeat_ms = now_ms;
        proof {
            let b = s.brokers[i as int];
            let after = s.brokers.update(
                i as int,
                BrokerInfo { alive: true, last: now_ms, ..b },
            );
            assert(self@.brokers =~= after);
            assert(forall|k: int| 0 <= k < after.len() ==> (#[trigger] after[k]).id == s.brokers[k].id
                && after[k].addr == s.brokers[k].addr && after[k].peer == s.brokers[k].peer);
            assert(brokers_ok(after));
        }
        if was_dead {
            let elected: bool = self.elect_where_needed();
            self.commit(elected);
        }
        true
    }

    /// The ids of the brokers that are alive, in order.
    fn living(&self) -> (r: Vec<u32>)
        ensures
            r@ == living_ids(self@.brokers),
    {
        let mut r: Vec<u32> = Vec::new();
        let ghost bs = self@.brokers;
        let mut i: usize = 0;
        assert(bs.take(0) =~= Seq::empty());
        assert(r@ =~= Seq::empty());
        while i < self.brokers.len()
            invariant
                i <= self.brokers@.len(),
                bs == self@.brokers,
                r@ == living_ids(bs.take(i as int)),
            decreases self.brokers@.len() - i,
        {
            proof {
                assert(bs.take(i + 1).drop_last() =~= bs.take(i as int));
                assert(bs.take(i + 1).last() == self.brokers@[i as int]@);
            }
            if self.brokers[i].alive {
                r.push(self.brokers[i].id);
            }
            i = i + 1;
        }
        assert(bs.take(i as int) =~= bs);
        r
    }

    /// Creates a topic on the brokers that are alive.
    pub fn create_topic(&mut self, topic: String, partitions: u32, replication_factor: u32) -> (r:
        ErrorCode)
        requires
            old(self).ok(),
            state_room(old(self)@),
            short(topic@),
        ensures
            final(self).ok(),
            r == create_error(old(self)@, topic@, partitions, replication_factor),
            final(self)@ == created(old(self)@, topic@, partitions, replication_factor),
    {
        let rf: u32 = if replication_factor == 0 {
            1
        } else {
            replication_factor
        };
        if self.find_topic(&topic).is_some() {
            return ErrorCode::TopicExists;
        }
        let alive: Vec<u32> = self.living();
        if partitions == 0 || partitions > 1024 || rf as u64 > alive.len() as u64 {
            return ErrorCode::Malformed;
        }
        let mut parts: Vec<PartitionState> = Vec::new();
        let mut p: u32 = 0;
        while p < partitions
            invariant
                p <= partitions <= 1024,
                1 <= rf <= alive@.len(),
                parts_view(parts@) == new_parts(alive@, p as nat, rf as nat),
            decreases partitions - p,
        {
            let ghost before = parts_view(parts@);
            let replicas: Vec<u32> = place(&alive, p, rf);
            let part: PartitionState = PartitionState {
                leader: from_bits32(replicas[0]),
                leader_epoch: 1,
                isr: copy_ids(&replicas),
                replicas,
            };
            assert(part@ == new_part(alive@, p as int, rf as nat));
            let ghost view = part@;
            parts.push(part);
            p = p + 1;
            assert(parts_view(parts@) =~= before.push(view));
            assert(parts_view(parts@) =~= new_parts(alive@, p as nat, rf as nat));
        }
        self.put_topic(TopicState { name: topic, partitions: parts });
        self.commit(true);
        ErrorCode::NoError
    }

    /// A leader proposes who is in sync.
    pub fn alter_isr(
        &mut self,
        topic: &String,
        partition: u32,
        leader_epoch: u64,
        isr: Vec<u32>,
    ) -> (r: ErrorCode)
        requires
            old(self).ok(),
            state_room(old(self)@),
        ensures
            final(self).ok(),
            r == alter_error(old(self)@, topic@, partition, leader_epoch, isr@),
            final(self)@ == altered(old(self)@, topic@, partition, leader_epoch, isr@),
    {
        let t: usize = match self.find_topic(topic) {
            Some(t) => t,
            None => {
                return ErrorCode::UnknownTopicOrPartition;
            },
        };
        let ghost s = self@;
        let ghost info = s.topics[t as int];
        assert(info == self.topics@[t as int]@);
        if partition as usize >= self.topics[t].partitions.len() {
            return ErrorCode::UnknownTopicOrPartition;
        }
        let k: usize = partition as usize;
        let p: &PartitionState = &self.topics[t].partitions[k];
        assert(p@ == info.parts[k as int]);
        if leader_epoch != p.leader_epoch {
            return ErrorCode::FencedEpoch;
        }
        let leader: u32 = to_bits32(p.leader);
        if isr.len() == 0 || !has_id(&isr, leader) || !ids_within(&isr, &p.replicas) {
            return ErrorCode::Malformed;
        }
        if same_ids(&p.isr, &isr) {
            proof {
                let parts = info.parts.update(
                    partition as int,
                    PartitionInfo { isr: isr@, ..info.parts[k as int] },
                );
                assert(parts =~= info.parts);
                assert(s.topics.update(t as int, TopicInfo { parts, ..info }) =~= s.topics);
            }
            return ErrorCode::NoError;
        }
        let ghost start = self.topics@;
        let entry: &mut TopicState = &mut self.topics[t];
        let part: &mut PartitionState = &mut entry.partitions[k];
        let ghost new_isr = isr@;
        part.isr = isr;
        proof {
            let q = PartitionInfo { isr: new_isr, ..info.parts[k as int] };
            let parts = info.parts.update(partition as int, q);
            assert(self.topics@[t as int]@.parts =~= parts);
            let after = s.topics.update(t as int, TopicInfo { parts, ..info });
            assert(self@.topics =~= after);
            assert(forall|i: int|
                0 <= i < after.len() ==> (#[trigger] after[i]).name == s.topics[i].name
                    && after[i].parts.len() == s.topics[i].parts.len());
            assert(topics_ok(after));
        }
        self.commit(true);
        ErrorCode::NoError
    }

    /// Declares brokers dead that were silent for longer than `timeout_ms`;
    /// whether there were any.
    pub fn sweep_liveness(&mut self, now_ms: u64, timeout_ms: u64) -> (changed: bool)
        requires
            old(self).ok(),
            state_room(old(self)@),
        ensures
            final(self).ok(),
            changed == any_dead(old(self)@.brokers, now_ms, timeout_ms),
            final(self)@ == swept(old(self)@, now_ms, timeout_ms),
    {
        let ghost s = self@;
        let ghost start = self.brokers@;
        let mut changed: bool = false;
        let n: usize = self.brokers.len();
        let mut i: usize = 0;
        assert(s.brokers.take(0) =~= Seq::empty());
        while i < n
            invariant
                n == self.brokers@.len(),
                n == start.len(),
                i <= n,
                s.brokers == brokers_view(start),
                s.topics == topics_view(self.topics@),
                s.version == self.version,
                forall|k: int| i <= k < n ==> #[trigger] self.brokers@[k] == start[k],
                forall|k: int|
                    0 <= k < i ==> (#[trigger] self.brokers@[k])@ == swept_broker(
                        s.brokers[k],
                        now_ms,
                        timeout_ms,
                    ),
                changed == any_dead(s.brokers.take(i as int), now_ms, timeout_ms),
                !changed ==> self.brokers@ == start,
            decreases n - i,
        {
            let ghost now = self.brokers@;
            proof {
                assert(now[i as int] == start[i as int]);
                assert(s.brokers.take(i + 1).drop_last() =~= s.brokers.take(i as int));
                assert(s.brokers.take(i + 1).last() == s.brokers[i as int]);
                assert(s.brokers[i as int] == start[i as int]@);
            }
            if self.brokers[i].alive && now_ms > self.brokers[i].last_heartbeat_ms && now_ms
                - self.brokers[i].last_heartbeat_ms > timeout_ms {
                let b: &mut BrokerState = &mut self.brokers[i];
                b.alive = false;
                changed = true;
                assert(forall|k: int| 0 <= k < n && k != i ==> #[trigger] self.brokers@[k] == now[k]);
            }
            i = i + 1;
        }
        assert(s.brokers.take(n as int) =~= s.brokers);
        if changed {
            proof {
                let after = swept_brokers(s.brokers, now_ms, timeout_ms);
                assert(self@.brokers =~= after);
                assert(forall|k: int| 0 <= k < after.len() ==> (#[trigger] after[k]).id == s.brokers[k].id
                    && after[k].addr == s.brokers[k].addr && after[k].peer == s.brokers[k].peer);
                assert(brokers_ok(after));
            }
            self.elect_where_needed();
            self.commit(true);
        }
        changed
    }

    /// The metadata to hand out.
    pub fn cluster_meta(&self) -> (m: ClusterMeta)
        requires
            self.ok(),
        ensures
            meta_says(m, self@),
    {
        let mut brokers: Vec<(u32, String)> = Vec::new();
        let mut peers: Vec<(u32, String)> = Vec::new();
        let mut i: usize = 0;
        while i < self.brokers.len()
            invariant
                i <= self.brokers@.len(),
                brokers@.len() == i,
                peers@.len() == i,
                forall|k: int|
                    0 <= k < i ==> (#[trigger] brokers@[k]).0 == self@.brokers[k].id
                        && brokers@[k].1@ == self@.brokers[k].addr,
                forall|k: int|
                    0 <= k < i ==> (#[trigger] peers@[k]).0 == self@.brokers[k].id
                        && peers@[k].1@ == self@.brokers[k].peer,
            decreases self.brokers@.len() - i,
        {
            let b: &BrokerState = &self.brokers[i];
            assert(self@.brokers[i as int] == b@);
            brokers.push((b.id, b.addr.clone()));
            peers.push((b.id, b.peer_addr.clone()));
            i = i + 1;
        }
        let mut topics: Vec<TopicMeta> = Vec::new();
        let mut k: usize = 0;
        while k < self.topics.len()
            invariant
                k <= self.topics@.len(),
                self.ok(),
                topics@.len() == k,
                forall|j: int| 0 <= j < k ==> topic_says(#[trigger] topics@[j], self@.topics[j]),
            decreases self.topics@.len() - k,
        {
            assert(self@.topics[k as int] == self.topics@[k as int]@);
            topics.push(topic_meta(&self.topics[k]));
            k = k + 1;
        }
        ClusterMeta { version: self.version, brokers, peers, topics }
    }
}

/// What a request leads to: the response, and the snapshot to persist before
/// it is sent, if the state changed.
pub struct Handled {
    pub response: Response,
    pub snapshot: Option<Vec<u8>>,
}

/// What the controller answers, and what becomes of its state.
pub open spec fn handles(s: StateView, t: StateView, req: Request, now_ms: u64, r: Response) -> bool {
    match req {
        Request::RegisterBroker { broker_id, addr, peer_addr } => {
            &&& t == registered(s, broker_id, addr@, peer_addr@, now_ms)
            &&& r == (Response::RegisterBroker {
                error: ErrorCode::NoError,
                metadata_version: t.version,
            })
        },
        Request::BrokerHeartbeat { broker_id, .. } => match broker_at(s.brokers, broker_id) {
            Some(i) => {
                &&& t == heartbeaten(s, i, now_ms)
                &&& r == (Response::BrokerHeartbeat {
                    error: ErrorCode::NoError,
                    metadata_version: t.version,
                })
            },
            None => {
                &&& t == s
                &&& r == (Response::BrokerHeartbeat {
                    error: ErrorCode::UnknownMember,
                    metadata_version: s.version,
                })
            },
        },
        Request::ControllerMetadata => {
            &&& t == s
            &&& r matches Response::ControllerMetadata { error, cluster } && error
                == ErrorCode::NoError && meta_says(cluster, s)
        },
        Request::CreateTopic { topic, partitions, replication_factor } => {
            &&& t == created(s, topic@, partitions, replication_factor)
            &&& r == (Response::CreateTopic {
                error: create_error(s, topic@, partitions, replication_factor),
            })
        },
        Request::AlterIsr { topic, partition, leader_epoch, isr } => {
            &&& t == altered(s, topic@, partition, leader_epoch, isr@)
            &&& r == (Response::AlterIsr {
                error: alter_error(s, topic@, partition, leader_epoch, isr@),
                metadata_version: t.version,
            })
        },
        _ => {
            &&& t == s
            &&& r matches Response::ControllerMetadata { error, cluster } && error
                == ErrorCode::Malformed && cluster.version == 0 && cluster.brokers@.len() == 0
                && cluster.peers@.len() == 0 && cluster.topics@.len() == 0
        },
    }
}

impl State {
    /// Answers a request. Data-plane and group messages don't belong here.
    pub fn handle(&mut self, req: Request, now_ms: u64) -> (h: Handled)
        requires
            old(self).ok(),
            state_room(old(self)@),
            texts_fit(request_vals(req)),
        ensures
            final(self).ok(),
            handles(old(self)@, final(self)@, req, now_ms, h.response),
            h.snapshot is Some <==> final(self)@.version != old(self)@.version,
            h.snapshot matches Some(bytes) ==> bytes@ == snapshot_bytes(*final(self)),
    {
        proof {
            reveal_with_fuel(texts_fit, 4);
        }
        let before: u64 = self.version;
        let response: Response = match req {
            Request::RegisterBroker { broker_id, addr, peer_addr } => {
                self.register_broker(broker_id, addr, peer_addr, now_ms);
                Response::RegisterBroker {
                    error: ErrorCode::NoError,
                    metadata_version: self.version,
                }
            },
            Request::BrokerHeartbeat { broker_id, .. } => {
                let known: bool = self.broker_heartbeat(broker_id, now_ms);
                Response::BrokerHeartbeat {
                    error: if known {
                        ErrorCode::NoError
                    } else {
                        ErrorCode::UnknownMember
                    },
                    metadata_version: self.version,
                }
            },
            Request::ControllerMetadata => Response::ControllerMetadata {
                error: ErrorCode::NoError,
                cluster: self.cluster_meta(),
            },
            Request::CreateTopic { topic, partitions, replication_factor } => {
                let error: ErrorCode = self.create_topic(topic, partitions, replication_factor);
                Response::CreateTopic { error }
            },
            Request::AlterIsr { topic, partition, leader_epoch, isr } => {
                let error: ErrorCode = self.alter_isr(&topic, partition, leader_epoch, isr);
                Response::AlterIsr { error, metadata_version: self.version }
            },
            _ => Response::ControllerMetadata {
                error: ErrorCode::Malformed,
                cluster: ClusterMeta::default(),
            },
        };
        let snapshot: Option<Vec<u8>> = if self.version != before {
            Some(self.persist_snapshot())
        } else {
            None
        };
        Handled { response, snapshot }
    }
}

/// The replicas of partition `p`.
fn place(alive: &Vec<u32>, p: u32, rf: u32) -> (r: Vec<u32>)
    requires
        1 <= rf <= alive@.len(),
        p < 1024,
    ensures
        r@ == placement(alive@, p as int, rf as nat),
{
    let mut r: Vec<u32> = Vec::new();
    let mut i: u32 = 0;
    let n: u64 = alive.len() as u64;
    while i < rf
        invariant
            i <= rf <= alive@.len(),
            n == alive@.len(),
            0 < n <= usize::MAX,
            p < 1024,
            r@.len() == i,
            forall|k: int|
                0 <= k < i ==> #[trigger] r@[k] == alive@[(p + k) % (alive@.len() as int)],
        decreases rf - i,
    {
        let at: u64 = (p as u64 + i as u64) % n;
        proof {
            let sum = p + i;
            assert(0 <= sum % (n as int) < n) by (nonlinear_arith)
                requires
                    n > 0,
            ;
        }
        r.push(alive[at as usize]);
        i = i + 1;
    }
    assert(r@ =~= placement(alive@, p as int, rf as nat));
    r
}

fn topic_meta(t: &TopicState) -> (m: TopicMeta)
    requires
        t.partitions@.len() <= u32::MAX,
    ensures
        topic_says(m, t@),
{
    let mut partitions: Vec<PartitionMeta> = Vec::new();
    let mut i: usize = 0;
    while i < t.partitions.len()
        invariant
            i <= t.partitions@.len() <= u32::MAX,
            partitions@.len() == i,
            forall|k: int|
                0 <= k < i ==> part_says(#[trigger] partitions@[k], k, t@.parts[k]),
        decreases t.partitions@.len() - i,
    {
        let p: &PartitionState = &t.partitions[i];
        assert(t@.parts[i as int] == p@);
        partitions.push(
            PartitionMeta {
                partition: i as u32,
                leader: p.leader,
                leader_epoch: p.leader_epoch,
                replicas: copy_ids(&p.replicas),
                isr: copy_ids(&p.isr),
            },
        );
        i = i + 1;
    }
    TopicMeta { name: t.name.clone(), partitions }
}

} // verus!
