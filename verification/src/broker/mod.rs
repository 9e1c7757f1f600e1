//! The broker: a server in front of per-partition writers.
//!
//! Request flow: a connection decodes a frame and dispatches it at once (so
//! pipelined produces from one client keep their order); what has to wait — for
//! a flush, for followers, for new records — is answered later, and never blocks
//! the connection's other requests. Responses may interleave out of request
//! order — correlation IDs are what make that safe.

pub mod cluster;
pub mod dispatch;
pub mod failover_laws;
pub mod fetch;
pub mod group_laws;
pub mod groups;
pub mod laws;
pub mod layout;
pub mod layout_laws;
pub mod leader_laws;
pub mod member_laws;
pub mod offsets;
pub mod partition;
pub mod replica_laws;
pub mod route_laws;
pub mod runtime;
pub mod write_laws;

pub use dispatch::Route;

use crate::codec::{capped, capped32};
use crate::order::{text_before, text_le};
use crate::proto::{ClusterMeta, ErrorCode, TopicMeta};
use crate::storage::{storage_error_text, LogConfig, StorageError, StorageFault};
use crate::text::same_text;
use cluster::{ReplView, Replica};
use groups::{count_map, count_of, partition_count, GroupCoordinator, Groups};
use layout::topic_views;
use offsets::{OffsetsStore, Place};
use vstd::prelude::*;
use vstd::string::*;

verus! {

/// Why a broker does not start.
#[derive(Debug)]
pub enum BrokerError {
    /// What the system said of a failed file or socket operation.
    Io(String),
    Storage(StorageError),
    InvalidLayout(String),
    OffsetsReplay(ErrorCode),
}

/// A broker error, its texts as characters.
pub ghost enum BrokerFault {
    Io(Seq<char>),
    Storage(StorageFault),
    InvalidLayout(Seq<char>),
    OffsetsReplay(ErrorCode),
}

impl View for BrokerError {
    type V = BrokerFault;

    open spec fn view(&self) -> BrokerFault {
        match *self {
            BrokerError::Io(text) => BrokerFault::Io(text@),
            BrokerError::Storage(e) => BrokerFault::Storage(e@),
            BrokerError::InvalidLayout(text) => BrokerFault::InvalidLayout(text@),
            BrokerError::OffsetsReplay(code) => BrokerFault::OffsetsReplay(code),
        }
    }
}

/// The text that describes a broker error.
pub open spec fn broker_error_text(f: BrokerFault) -> Seq<char> {
    match f {
        BrokerFault::Io(text) => "io: "@ + text,
        BrokerFault::Storage(e) => "storage: "@ + storage_error_text(e),
        BrokerFault::InvalidLayout(text) => "invalid data dir layout: "@ + text,
        BrokerFault::OffsetsReplay(code) => "offsets replay failed: "@ + code.label(),
    }
}

impl BrokerError {
    /// The text that describes this error.
    pub fn message(&self) -> (text: String)
        ensures
            text@ == broker_error_text(self@),
    {
        match self {
            BrokerError::Io(detail) => {
                let mut text: String = "io: ".to_owned();
                text.append(detail.as_str());
                text
            },
            BrokerError::Storage(e) => {
                let mut text: String = "storage: ".to_owned();
                text.append(e.message().as_str());
                text
            },
            BrokerError::InvalidLayout(detail) => {
                let mut text: String = "invalid data dir layout: ".to_owned();
                text.append(detail.as_str());
                text
            },
            BrokerError::OffsetsReplay(code) => {
                let mut text: String = "offsets replay failed: ".to_owned();
                text.append(code.name());
                text
            },
        }
    }
}

#[derive(Debug, Clone)]
pub struct BrokerConfig {
    pub data_dir: String,
    pub log: LogConfig,
    pub broker_id: u32,
    /// None = standalone: this broker is the world.
    pub controller_addr: Option<String>,
    /// Address clients should dial; defaults to the bound one.
    pub advertise_addr: Option<String>,
    /// Address other brokers should dial (follower fetch, epoch checks);
    /// defaults to `advertise_addr`. Separate when peers live on a private
    /// network and clients arrive through a published port.
    pub advertise_peer_addr: Option<String>,
    /// acks=all is refused when the ISR is smaller than this.
    pub min_insync_replicas: u32,
    /// A follower silent for this long is proposed out of the ISR.
    pub replica_lag_ms: u64,
}

impl BrokerConfig {
    pub fn standalone(data_dir: String, log: LogConfig) -> (r: Self)
        ensures
            r.data_dir@ == data_dir@,
            r.log == log,
            r.broker_id == 0,
            r.controller_addr is None,
            r.advertise_addr is None,
            r.advertise_peer_addr is None,
            r.min_insync_replicas == 2,
            r.replica_lag_ms == 2000,
    {
        BrokerConfig {
            data_dir,
            log,
            broker_id: 0,
            controller_addr: None,
            advertise_addr: None,
            advertise_peer_addr: None,
            min_insync_replicas: 2,
            replica_lag_ms: 2000,
        }
    }

    pub fn clustered(
        data_dir: String,
        log: LogConfig,
        broker_id: u32,
        controller_addr: String,
    ) -> (r: Self)
        ensures
            r.data_dir@ == data_dir@,
            r.log == log,
            r.broker_id == broker_id,
            r.controller_addr matches Some(a) && a@ == controller_addr@,
            r.advertise_addr is None,
            r.advertise_peer_addr is None,
            r.min_insync_replicas == 2,
            r.replica_lag_ms == 2000,
    {
        let mut config: BrokerConfig = BrokerConfig::standalone(data_dir, log);
        config.controller_addr = Some(controller_addr);
        config.broker_id = broker_id;
        config
    }
}

/// A broker's state: the topics that it hosts on its own, or the replicas that
/// the controller gave it; the groups that it coordinates; and what they
/// committed.
pub struct Broker {
    config: BrokerConfig,
    advertised: String,
    topics: Vec<(String, u32)>,
    offsets: OffsetsStore,
    groups: GroupCoordinator,
    replicas: Vec<Replica>,
    cluster_meta: ClusterMeta,
}

pub ghost struct ReplicaInfo {
    pub topic: Seq<char>,
    pub partition: u32,
    pub state: ReplView,
}

impl View for Replica {
    type V = ReplicaInfo;

    open spec fn view(&self) -> ReplicaInfo {
        ReplicaInfo { topic: self.topic@, partition: self.partition, state: self.state@ }
    }
}

pub open spec fn replica_views(v: Seq<Replica>) -> Seq<ReplicaInfo> {
    v.map_values(|r: Replica| r@)
}

pub ghost struct BrokerView {
    pub config: BrokerConfig,
    pub clustered: bool,
    pub id: u32,
    pub min_isr: u32,
    pub lag_ms: u64,
    pub advertised: Seq<char>,
    /// The topics of a broker on its own, in the order of their names.
    pub topics: Seq<(Seq<char>, u32)>,
    pub offsets: Map<Place, u64>,
    pub groups: Groups,
    pub replicas: Seq<ReplicaInfo>,
    pub meta: ClusterMeta,
}

impl View for Broker {
    type V = BrokerView;

    closed spec fn view(&self) -> BrokerView {
        BrokerView {
            config: self.config,
            clustered: self.config.controller_addr is Some,
            id: self.config.broker_id,
            min_isr: self.config.min_insync_replicas,
            lag_ms: self.config.replica_lag_ms,
            advertised: self.advertised@,
            topics: topic_views(self.topics@),
            offsets: self.offsets@,
            groups: self.groups@,
            replicas: replica_views(self.replicas@),
            meta: self.cluster_meta,
        }
    }
}

pub open spec fn topics_rise(ts: Seq<(Seq<char>, u32)>) -> bool {
    forall|i: int, j: int|
        0 <= i < j < ts.len() ==> text_le((#[trigger] ts[i]).0, (#[trigger] ts[j]).0) && ts[i].0
            != ts[j].0
}

/// No partition is hosted twice.
pub open spec fn replicas_distinct(rs: Seq<ReplicaInfo>) -> bool {
    forall|i: int, j: int|
        0 <= i < j < rs.len() ==> (#[trigger] rs[i]).topic != (#[trigger] rs[j]).topic
            || rs[i].partition != rs[j].partition
}

/// The place of a topic.
pub open spec fn topic_index(ts: Seq<(Seq<char>, u32)>, name: Seq<char>) -> Option<int>
    decreases ts.len(),
{
    if ts.len() == 0 {
        None
    } else if ts.last().0 == name {
        Some(ts.len() - 1)
    } else {
        topic_index(ts.drop_last(), name)
    }
}

/// The place of a replica.
pub open spec fn replica_index(rs: Seq<ReplicaInfo>, topic: Seq<char>, partition: u32) -> Option<int>
    decreases rs.len(),
{
    if rs.len() == 0 {
        None
    } else if rs.last().topic == topic && rs.last().partition == partition {
        Some(rs.len() - 1)
    } else {
        replica_index(rs.drop_last(), topic, partition)
    }
}

/// Whether a broker on its own hosts a partition.
pub open spec fn hosts(s: BrokerView, topic: Seq<char>, partition: u32) -> bool {
    topic_index(s.topics, topic) matches Some(i) && partition < s.topics[i].1
}

/// Whether metadata knows a topic.
pub open spec fn knows_topic(meta: ClusterMeta, topic: Seq<char>) -> bool {
    exists|i: int| 0 <= i < meta.topics@.len() && (#[trigger] meta.topics@[i]).name@ == topic
}

/// How many partitions each topic has, as metadata says; of two entries for one
/// topic the earlier counts.
pub open spec fn meta_counts(ts: Seq<TopicMeta>) -> Map<Seq<char>, u32>
    decreases ts.len(),
{
    if ts.len() == 0 {
        Map::empty()
    } else {
        meta_counts(ts.skip(1)).insert(ts[0].name@, capped(ts[0].partitions@.len()))
    }
}

pub open spec fn topic_counts(ts: Seq<(Seq<char>, u32)>) -> Map<Seq<char>, u32>
    decreases ts.len(),
{
    if ts.len() == 0 {
        Map::empty()
    } else {
        topic_counts(ts.drop_last()).insert(ts.last().0, ts.last().1)
    }
}

/// How many partitions each topic has, as far as the broker knows.
pub open spec fn partition_counts(s: BrokerView) -> Map<Seq<char>, u32> {
    if s.clustered {
        meta_counts(s.meta.topics@)
    } else {
        topic_counts(s.topics)
    }
}

/// A topic put in its place, instead of one with its name.
pub open spec fn with_topic(ts: Seq<(Seq<char>, u32)>, t: (Seq<char>, u32)) -> Seq<(Seq<char>, u32)>
    decreases ts.len(),
{
    if ts.len() == 0 {
        seq![t]
    } else if ts.last().0 == t.0 {
        ts.drop_last().push(t)
    } else if text_le(ts.last().0, t.0) {
        ts.push(t)
    } else {
        with_topic(ts.drop_last(), t).push(ts.last())
    }
}

proof fn lemma_with_topic(ts: Seq<(Seq<char>, u32)>, t: (Seq<char>, u32), k: int)
    requires
        topics_rise(ts),
        0 <= k <= ts.len(),
        forall|i: int| k <= i < ts.len() ==> (#[trigger] ts[i]).0 != t.0 && !text_le(ts[i].0, t.0),
        k > 0 ==> text_le(ts[k - 1].0, t.0),
    ensures
        with_topic(ts, t) == (if k > 0 && ts[k - 1].0 == t.0 {
            ts.update(k - 1, t)
        } else {
            ts.insert(k, t)
        }),
        topics_rise(with_topic(ts, t)),
    decreases ts.len(),
{
    if k == ts.len() {
        if k > 0 && ts[k - 1].0 == t.0 {
            assert(ts.drop_last().push(t) =~= ts.update(k - 1, t));
        } else {
            assert(ts.push(t) =~= ts.insert(k, t));
        }
    } else {
        let head = ts.drop_last();
        assert(ts[ts.len() - 1] == ts.last());
        lemma_with_topic(head, t, k);
        if k > 0 && ts[k - 1].0 == t.0 {
            assert(head.update(k - 1, t).push(ts.last()) =~= ts.update(k - 1, t));
        } else {
            assert(head.insert(k, t).push(ts.last()) =~= ts.insert(k, t));
        }
    }
    let r = with_topic(ts, t);
    assert forall|i: int, j: int| 0 <= i < j < r.len() implies text_le(
        (#[trigger] r[i]).0,
        (#[trigger] r[j]).0,
    ) && r[i].0 != r[j].0 by {
        if k > 0 && ts[k - 1].0 == t.0 {
            assert(r[i].0 == ts[i].0 && r[j].0 == ts[j].0);
        } else if i == k {
            assert(r[j] == ts[j - 1]);
            crate::order::lemma_text_le_total(t.0, ts[j - 1].0);
        } else if j == k {
            assert(r[i] == ts[i]);
            if i < k - 1 {
                assert(text_le(ts[i].0, ts[k - 1].0) && ts[i].0 != ts[k - 1].0);
                crate::order::lemma_text_le_trans(ts[i].0, ts[k - 1].0, t.0);
                if ts[i].0 == t.0 {
                    crate::order::lemma_text_le_antisym(ts[i].0, ts[k - 1].0);
                }
            }
        } else {
            let a = if i < k {
                i
            } else {
                i - 1
            };
            let b = if j < k {
                j
            } else {
                j - 1
            };
            assert(r[i] == ts[a] && r[j] == ts[b]);
            assert(text_le(ts[a].0, ts[b].0));
        }
    }
}

pub proof fn lemma_replica_index(rs: Seq<ReplicaInfo>, topic: Seq<char>, partition: u32)
    ensures
        match replica_index(rs, topic, partition) {
            Some(i) => 0 <= i < rs.len() && rs[i].topic == topic && rs[i].partition == partition,
            None => forall|i: int|
                0 <= i < rs.len() ==> (#[trigger] rs[i]).topic != topic || rs[i].partition
                    != partition,
        },
    decreases rs.len(),
{
    if rs.len() > 0 && !(rs.last().topic == topic && rs.last().partition == partition) {
        let head = rs.drop_last();
        lemma_replica_index(head, topic, partition);
        if replica_index(head, topic, partition) is None {
            assert forall|i: int| 0 <= i < rs.len() implies (#[trigger] rs[i]).topic != topic
                || rs[i].partition != partition by {
                if i < head.len() {
                    assert(head[i] == rs[i]);
                }
            }
        }
    }
}

proof fn lemma_meta_counts(counts: Seq<(String, u32)>, ts: Seq<TopicMeta>)
    requires
        counts.len() == ts.len(),
        forall|i: int|
            0 <= i < ts.len() ==> (#[trigger] counts[i]).0@ == ts[ts.len() - 1 - i].name@
                && counts[i].1 == capped(ts[ts.len() - 1 - i].partitions@.len()),
    ensures
        count_map(counts) == meta_counts(ts),
    decreases ts.len(),
{
    if ts.len() > 0 {
        let head = counts.drop_last();
        let rest = ts.skip(1);
        assert forall|i: int| 0 <= i < rest.len() implies (#[trigger] head[i]).0@ == rest[rest.len()
            - 1 - i].name@ && head[i].1 == capped(rest[rest.len() - 1 - i].partitions@.len()) by {
            assert(head[i] == counts[i]);
            assert(rest[rest.len() - 1 - i] == ts[ts.len() - 1 - i]);
        }
        lemma_meta_counts(head, rest);
        assert(counts.last() == counts[counts.len() - 1]);
    }
}

proof fn lemma_topic_counts(v: Seq<(String, u32)>)
    ensures
        count_map(v) == topic_counts(topic_views(v)),
    decreases v.len(),
{
    if v.len() > 0 {
        lemma_topic_counts(v.drop_last());
        assert(topic_views(v).drop_last() =~= topic_views(v.drop_last()));
    }
}

impl Broker {
    pub closed spec fn parts_ok(self) -> bool {
        self.offsets.ok() && self.groups.ok()
    }

    pub open spec fn ok(self) -> bool {
        &&& self.parts_ok()
        &&& topics_rise(self@.topics)
        &&& replicas_distinct(self@.replicas)
    }

    /// A broker that hosts nothing yet, reached under `advertised`.
    pub fn new(config: BrokerConfig, advertised: String, offsets: OffsetsStore) -> (r: Broker)
        requires
            offsets.ok(),
        ensures
            r.ok(),
            r@.config == config,
            r@.clustered == (config.controller_addr is Some),
            r@.id == config.broker_id,
            r@.min_isr == config.min_insync_replicas,
            r@.lag_ms == config.replica_lag_ms,
            r@.advertised == advertised@,
            r@.topics.len() == 0,
            r@.offsets == offsets@,
            r@.groups == (Groups { groups: Seq::empty(), next: 1 }),
            r@.replicas.len() == 0,
            r@.meta.version == 0,
            r@.meta.topics@.len() == 0,
            r@.meta.brokers@.len() == 0,
            r@.meta.peers@.len() == 0,
    {
        Broker {
            config,
            advertised,
            topics: Vec::new(),
            offsets,
            groups: GroupCoordinator::new(),
            replicas: Vec::new(),
            cluster_meta: ClusterMeta::default(),
        }
    }

    fn find_topic(&self, name: &str) -> (r: Option<usize>)
        ensures
            match topic_index(self@.topics, name@) {
                Some(i) => r matches Some(k) && k == i && 0 <= i < self.topics@.len(),
                None => r is None,
            },
    {
        let ghost ts = self@.topics;
        let mut i: usize = self.topics.len();
        assert(ts.take(i as int) =~= ts);
        while i > 0
            invariant
                i <= self.topics@.len(),
                ts == self@.topics,
                topic_index(ts.take(i as int), name@) == topic_index(ts, name@),
            decreases i,
        {
            assert(ts.take(i as int).drop_last() =~= ts.take(i - 1));
            assert(ts.take(i as int).last().0 == self.topics@[i - 1].0@);
            if same_text(self.topics[i - 1].0.as_str(), name) {
                return Some(i - 1);
            }
            i -= 1;
        }
        None
    }

    fn find_replica(&self, topic: &str, partition: u32) -> (r: Option<usize>)
        ensures
            match replica_index(self@.replicas, topic@, partition) {
                Some(i) => r matches Some(k) && k == i && 0 <= i < self.replicas@.len(),
                None => r is None,
            },
    {
        let ghost rs = self@.replicas;
        let mut i: usize = self.replicas.len();
        assert(rs.take(i as int) =~= rs);
        while i > 0
            invariant
                i <= self.replicas@.len(),
                rs == self@.replicas,
                replica_index(rs.take(i as int), topic@, partition) == replica_index(
                    rs,
                    topic@,
                    partition,
                ),
            decreases i,
        {
            assert(rs.take(i as int).drop_last() =~= rs.take(i - 1));
            assert(rs.take(i as int).last() == self.replicas@[i - 1]@);
            if self.replicas[i - 1].partition == partition && same_text(
                self.replicas[i - 1].topic.as_str(),
                topic,
            ) {
                return Some(i - 1);
            }
            i -= 1;
        }
        None
    }

    fn hosts(&self, topic: &str, partition: u32) -> (r: bool)
        ensures
            r == hosts(self@, topic@, partition),
    {
        match self.find_topic(topic) {
            Some(i) => partition < self.topics[i].1,
            None => false,
        }
    }

    /// How many partitions each topic has.
    pub fn counts(&self) -> (r: Vec<(String, u32)>)
        ensures
            count_map(r@) == partition_counts(self@),
    {
        let mut r: Vec<(String, u32)> = Vec::new();
        if self.config.controller_addr.is_some() {
            let ghost ts = self.cluster_meta.topics@;
            let n: usize = self.cluster_meta.topics.len();
            let mut i: usize = n;
            while i > 0
                invariant
                    i <= n,
                    n == ts.len(),
                    ts == self.cluster_meta.topics@,
                    r@.len() == n - i,
                    forall|j: int|
                        0 <= j < r@.len() ==> (#[trigger] r@[j]).0@ == ts[n - 1 - j].name@
                            && r@[j].1 == capped(ts[n - 1 - j].partitions@.len()),
                decreases i,
            {
                let t: &TopicMeta = &self.cluster_meta.topics[i - 1];
                r.push((t.name.clone(), capped32(t.partitions.len())));
                i -= 1;
            }
            proof {
                lemma_meta_counts(r@, ts);
            }
            return r;
        }
        let mut i: usize = 0;
        while i < self.topics.len()
            invariant
                i <= self.topics@.len(),
                r@.len() == i,
                forall|j: int|
                    0 <= j < i ==> (#[trigger] r@[j]).0@ == self.topics@[j].0@ && r@[j].1
                        == self.topics@[j].1,
            decreases self.topics@.len() - i,
        {
            r.push((self.topics[i].0.clone(), self.topics[i].1));
            i += 1;
        }
        proof {
            assert(topic_views(r@) =~= topic_views(self.topics@));
            lemma_topic_counts(r@);
        }
        r
    }

    /// How many partitions a topic has, if it is known.
    pub fn topic_partitions(&self, topic: &str) -> (r: Option<u32>)
        ensures
            r == count_of(partition_counts(self@), topic@),
    {
        partition_count(&self.counts(), topic)
    }

    /// Takes in a topic whose logs are open.
    pub fn add_topic(&mut self, topic: String, partitions: u32)
        requires
            old(self).ok(),
        ensures
            final(self).ok(),
            final(self)@ == (BrokerView {
                topics: with_topic(old(self)@.topics, (topic@, partitions)),
                ..old(self)@
            }),
    {
        let ghost ts = self@.topics;
        let mut k: usize = self.topics.len();
        while k > 0 && !text_before(self.topics[k - 1].0.as_str(), topic.as_str())
            invariant
                k <= self.topics@.len(),
                ts == self@.topics,
                forall|i: int|
                    k <= i < ts.len() ==> (#[trigger] ts[i]).0 != topic@ && !text_le(
                        ts[i].0,
                        topic@,
                    ),
            decreases k,
        {
            assert(ts[k - 1].0 == self.topics@[k - 1].0@);
            proof {
                crate::order::lemma_text_le_total(topic@, topic@);
            }
            k -= 1;
        }
        let ghost t = (topic@, partitions);
        proof {
            if k > 0 {
                assert(ts[k - 1].0 == self.topics@[k - 1].0@);
            }
            lemma_with_topic(ts, t, k as int);
        }
        if k > 0 && self.topics[k - 1].0 == topic {
            self.topics[k - 1] = (topic, partitions);
            assert(self@.topics =~= ts.update(k - 1, t));
        } else {
            self.topics.insert(k, (topic, partitions));
            assert(self@.topics =~= ts.insert(k as int, t));
        }
    }
}

} // verus!
