//! Cluster-aware client: routes to partition leaders and retries through
//! failovers. The retry is what makes a leader election invisible to the
//! workload — and what makes duplicates possible (a request may have been
//! applied before its connection died), which is why the delivery contract is
//! at-least-once and the checker counts duplicates instead of denying them.

use super::{CallFault, ClientError, Result};
use crate::order::texts;
use crate::proto::copy::copy_meta;
use crate::proto::lookup::{find_partition, find_topic, partition_of};
use crate::proto::meta::cluster_vals;
use crate::proto::{ClusterMeta, ErrorCode};
use vstd::prelude::*;

verus! {

pub struct ClusterClient {
    pub bootstrap: Vec<String>,
    pub meta: ClusterMeta,
    pub retry_timeout_ms: u64,
    pub retry_backoff_ms: u64,
}

/// The texts, each where it first stands.
pub open spec fn first_seen(s: Seq<Seq<char>>) -> Seq<Seq<char>>
    decreases s.len(),
{
    if s.len() == 0 {
        Seq::empty()
    } else {
        let head = first_seen(s.drop_last());
        if s.drop_last().contains(s.last()) {
            head
        } else {
            head.push(s.last())
        }
    }
}

pub open spec fn addresses(brokers: Seq<(u32, String)>) -> Seq<Seq<char>> {
    brokers.map_values(|b: (u32, String)| b.1@)
}

/// The version of an answer; -1 where there is none.
pub open spec fn version_of(r: Result<ClusterMeta>) -> int {
    match r {
        Ok(m) => m.version as int,
        Err(_) => -1,
    }
}

/// The first of the newest answers among the first `n`.
pub open spec fn newest(rs: Seq<Result<ClusterMeta>>, n: int) -> Option<int>
    decreases n,
{
    if n <= 0 {
        None
    } else {
        match newest(rs, n - 1) {
            Some(k) => if version_of(rs[n - 1]) > version_of(rs[k]) {
                Some(n - 1)
            } else {
                Some(k)
            },
            None => if rs[n - 1] is Ok {
                Some(n - 1)
            } else {
                None
            },
        }
    }
}

/// Newest wins: no answer is newer than the one that is kept, and where any
/// broker answered, an answer is kept.
pub proof fn law_newest_wins(rs: Seq<Result<ClusterMeta>>, n: int)
    requires
        0 <= n <= rs.len(),
    ensures
        match newest(rs, n) {
            Some(k) => 0 <= k < n && rs[k] is Ok && forall|i: int|
                0 <= i < n ==> version_of(#[trigger] rs[i]) <= version_of(rs[k]),
            None => forall|i: int| 0 <= i < n ==> (#[trigger] rs[i]) is Err,
        },
    decreases n,
{
    if n > 0 {
        law_newest_wins(rs, n - 1);
    }
}

/// The leader of a partition, where a client finds it.
pub open spec fn leader_addr(meta: ClusterMeta, topic: Seq<char>, partition: u32) -> Option<
    (Seq<char>, u64),
> {
    match partition_of(meta, topic, partition) {
        Some(p) => if p.leader < 0 {
            None
        } else {
            match addr_of(meta.brokers@, p.leader as u32, 0) {
                Some(i) => Some((meta.brokers@[i].1@, p.leader_epoch)),
                None => None,
            }
        },
        None => None,
    }
}

/// The first entry for a broker, from `i` on.
pub open spec fn addr_of(brokers: Seq<(u32, String)>, id: u32, i: int) -> Option<int>
    decreases brokers.len() - i,
{
    if i < 0 || i >= brokers.len() {
        None
    } else if brokers[i].0 == id {
        Some(i)
    } else {
        addr_of(brokers, id, i + 1)
    }
}

/// The first entry for a broker.
pub fn find_addr(brokers: &Vec<(u32, String)>, id: u32) -> (r: Option<usize>)
    ensures
        match addr_of(brokers@, id, 0) {
            Some(i) => r matches Some(k) && k == i && 0 <= i < brokers@.len(),
            None => r is None,
        },
{
    let mut i: usize = 0;
    while i < brokers.len()
        invariant
            i <= brokers@.len(),
            addr_of(brokers@, id, i as int) == addr_of(brokers@, id, 0),
        decreases brokers@.len() - i,
    {
        if brokers[i].0 == id {
            return Some(i);
        }
        i += 1;
    }
    None
}

/// Whether a failed produce is worth another try: the leader may have moved, or
/// replicas may come back.
pub open spec fn retries_produce(f: CallFault) -> bool {
    match f {
        CallFault::Broker(code) => {
            ||| code == ErrorCode::NotLeader
            ||| code == ErrorCode::FencedEpoch
            ||| code == ErrorCode::Offline
            ||| code == ErrorCode::NotEnoughReplicas
            ||| code == ErrorCode::UnknownTopicOrPartition
        },
        CallFault::Closed => true,
        CallFault::Io(_) => true,
        _ => false,
    }
}

/// Whether a failed fetch is worth another try.
pub open spec fn retries_fetch(f: CallFault) -> bool {
    match f {
        CallFault::Broker(code) => {
            ||| code == ErrorCode::NotLeader
            ||| code == ErrorCode::FencedEpoch
            ||| code == ErrorCode::Offline
        },
        CallFault::Closed => true,
        CallFault::Io(_) => true,
        _ => false,
    }
}

/// Whether a failed call leaves its connection unusable.
pub open spec fn kills_connection(f: CallFault) -> bool {
    f is Closed || f is Io
}

/// What a client does after a failed attempt.
pub enum RetryStep {
    /// Back off, refresh the metadata, try again.
    Again,
    /// Give up, with this error.
    Fail(ClientError),
}

/// What follows a failed attempt: another one while there is time and hope;
/// `Closed` where the time is over; else the error.
pub open spec fn retried(e: ClientError, hope: bool, in_time: bool, step: RetryStep) -> bool {
    if !hope {
        step == RetryStep::Fail(e)
    } else if in_time {
        step is Again
    } else {
        step matches RetryStep::Fail(x) && x@ == CallFault::Closed
    }
}

/// Decides on a failed produce. `in_time` says whether the deadline is still
/// ahead.
pub fn after_failed_produce(e: ClientError, in_time: bool) -> (step: RetryStep)
    ensures
        retried(e, retries_produce(e@), in_time, step),
        in_time && (e@ == CallFault::Broker(ErrorCode::NotLeader) || e@ == CallFault::Broker(
            ErrorCode::FencedEpoch,
        ) || e@ == CallFault::Broker(ErrorCode::Offline) || e@ == CallFault::Broker(
            ErrorCode::NotEnoughReplicas,
        ) || e@ == CallFault::Broker(ErrorCode::UnknownTopicOrPartition) || e@ is Closed || e@ is Io)
            ==> step is Again,
        !in_time ==> step is Fail,
{
    let hope: bool = match &e {
        ClientError::Broker(code) => *code == ErrorCode::NotLeader || *code
            == ErrorCode::FencedEpoch || *code == ErrorCode::Offline || *code
            == ErrorCode::NotEnoughReplicas || *code == ErrorCode::UnknownTopicOrPartition,
        ClientError::Closed => true,
        ClientError::Io(_) => true,
        _ => false,
    };
    if !hope {
        RetryStep::Fail(e)
    } else if in_time {
        RetryStep::Again
    } else {
        RetryStep::Fail(ClientError::Closed)
    }
}

/// Decides on a failed fetch.
pub fn after_failed_fetch(e: ClientError, in_time: bool) -> (step: RetryStep)
    ensures
        retried(e, retries_fetch(e@), in_time, step),
        in_time && (e@ == CallFault::Broker(ErrorCode::NotLeader) || e@ == CallFault::Broker(
            ErrorCode::FencedEpoch,
        ) || e@ == CallFault::Broker(ErrorCode::Offline) || e@ is Closed || e@ is Io) ==> step is Again,
        !in_time ==> step is Fail,
{
    let hope: bool = match &e {
        ClientError::Broker(code) => *code == ErrorCode::NotLeader || *code
            == ErrorCode::FencedEpoch || *code == ErrorCode::Offline,
        ClientError::Closed => true,
        ClientError::Io(_) => true,
        _ => false,
    };
    if !hope {
        RetryStep::Fail(e)
    } else if in_time {
        RetryStep::Again
    } else {
        RetryStep::Fail(ClientError::Closed)
    }
}

/// Whether a connection is to be dropped after this error.
pub fn drops_connection(e: &ClientError) -> (r: bool)
    ensures
        r == kills_connection(e@),
{
    match e {
        ClientError::Closed => true,
        ClientError::Io(_) => true,
        _ => false,
    }
}

/// What a client does after one broker answered its request to create a topic.
pub enum CreateStep {
    Done,
    /// Drop the connection and ask the next broker.
    Next,
    Fail(ClientError),
}

/// Decides on one broker's answer to the creation of a topic: one that exists
/// is an error at once, other failures leave it to the next broker.
pub fn after_create(result: Result<()>) -> (step: CreateStep)
    ensures
        match result {
            Ok(_) => step is Done,
            Err(e) => if e@ == CallFault::Broker(ErrorCode::TopicExists) {
                step matches CreateStep::Fail(x) && x@ == CallFault::Broker(ErrorCode::TopicExists)
            } else {
                step is Next
            },
        },
{
    match result {
        Ok(_) => CreateStep::Done,
        Err(ClientError::Broker(code)) => {
            if code == ErrorCode::TopicExists {
                CreateStep::Fail(ClientError::Broker(code))
            } else {
                CreateStep::Next
            }
        },
        Err(_) => CreateStep::Next,
    }
}

fn copy_texts(v: &Vec<String>) -> (r: Vec<String>)
    ensures
        texts(r@) == texts(v@),
{
    let mut r: Vec<String> = Vec::new();
    let mut i: usize = 0;
    while i < v.len()
        invariant
            i <= v@.len(),
            r@.len() == i,
            forall|j: int| 0 <= j < i ==> (#[trigger] r@[j])@ == v@[j]@,
        decreases v@.len() - i,
    {
        r.push(v[i].clone());
        i += 1;
    }
    assert(texts(r@) =~= texts(v@));
    r
}

fn broker_addrs(brokers: &Vec<(u32, String)>) -> (r: Vec<String>)
    ensures
        texts(r@) == addresses(brokers@),
{
    let mut r: Vec<String> = Vec::new();
    let mut i: usize = 0;
    while i < brokers.len()
        invariant
            i <= brokers@.len(),
            r@.len() == i,
            forall|j: int| 0 <= j < i ==> (#[trigger] r@[j])@ == brokers@[j].1@,
        decreases brokers@.len() - i,
    {
        r.push(brokers[i].1.clone());
        i += 1;
    }
    assert(texts(r@) =~= addresses(brokers@));
    r
}

proof fn lemma_first_seen(s: Seq<Seq<char>>, t: Seq<char>)
    ensures
        first_seen(s).contains(t) <==> s.contains(t),
    decreases s.len(),
{
    if s.len() > 0 {
        let head = s.drop_last();
        lemma_first_seen(head, t);
        crate::order::lemma_text_push(head, s.last(), t);
        assert(head.push(s.last()) =~= s);
        crate::order::lemma_text_push(first_seen(head), s.last(), t);
    }
}

fn has_text(v: &Vec<String>, t: &String) -> (r: bool)
    ensures
        r == texts(v@).contains(t@),
{
    let ghost all = texts(v@);
    let mut i: usize = 0;
    while i < v.len()
        invariant
            i <= v@.len(),
            all == texts(v@),
            forall|j: int| 0 <= j < i ==> #[trigger] all[j] != t@,
        decreases v@.len() - i,
    {
        assert(all[i as int] == v@[i as int]@);
        if v[i] == *t {
            return true;
        }
        i += 1;
    }
    false
}

fn add_new(out: &mut Vec<String>, v: &Vec<String>, Ghost(before): Ghost<Seq<Seq<char>>>)
    requires
        texts(old(out)@) == first_seen(before),
    ensures
        texts(final(out)@) == first_seen(before + texts(v@)),
{
    let ghost all = texts(v@);
    let mut i: usize = 0;
    assert(before + all.take(0) =~= before);
    while i < v.len()
        invariant
            i <= v@.len(),
            all == texts(v@),
            texts(out@) == first_seen(before + all.take(i as int)),
        decreases v@.len() - i,
    {
        let ghost so_far = before + all.take(i as int);
        let ghost seen = texts(out@);
        proof {
            lemma_first_seen(so_far, v@[i as int]@);
            assert((before + all.take(i + 1)).drop_last() =~= so_far);
            assert((before + all.take(i + 1)).last() == v@[i as int]@);
        }
        if !has_text(out, &v[i]) {
            out.push(v[i].clone());
            assert(texts(out@) =~= seen.push(v@[i as int]@));
        }
        i += 1;
    }
    assert(all.take(i as int) =~= all);
}

impl ClusterClient {
    pub fn new(bootstrap: Vec<String>) -> (r: Self)
        ensures
            r.bootstrap == bootstrap,
            r.meta.version == 0,
            r.meta.brokers@.len() == 0,
            r.meta.topics@.len() == 0,
            r.meta.peers@.len() == 0,
            r.retry_timeout_ms == 15_000,
            r.retry_backoff_ms == 100,
    {
        ClusterClient {
            bootstrap,
            meta: ClusterMeta::default(),
            retry_timeout_ms: 15_000,
            retry_backoff_ms: 100,
        }
    }

    /// Whom a refresh asks: every known address, each once.
    pub fn candidates(&self) -> (r: Vec<String>)
        ensures
            texts(r@) == first_seen(texts(self.bootstrap@) + addresses(self.meta.brokers@)),
    {
        let mut out: Vec<String> = Vec::new();
        let ghost none = Seq::<Seq<char>>::empty();
        assert(texts(out@) =~= first_seen(none));
        add_new(&mut out, &self.bootstrap, Ghost(none));
        assert(none + texts(self.bootstrap@) =~= texts(self.bootstrap@));
        let known: Vec<String> = broker_addrs(&self.meta.brokers);
        add_new(&mut out, &known, Ghost(texts(self.bootstrap@)));
        out
    }

    /// Whom the creation of a topic asks: the known brokers, or the bootstrap
    /// addresses where none is known.
    pub fn creators(&self) -> (r: Vec<String>)
        ensures
            texts(r@) == (if self.meta.brokers@.len() == 0 {
                texts(self.bootstrap@)
            } else {
                addresses(self.meta.brokers@)
            }),
    {
        if self.meta.brokers.len() == 0 {
            copy_texts(&self.bootstrap)
        } else {
            broker_addrs(&self.meta.brokers)
        }
    }

    /// Takes in what the candidates answered, and keeps the *newest* metadata
    /// by version. First-answer-wins is wrong here: a deposed leader cut off
    /// from the controller still answers metadata requests with its stale
    /// view, and if it happens to sit first in the candidate list it would
    /// keep routing this client to itself. Versions are monotonic at the
    /// controller, so newest-wins converges on the live topology.
    pub fn refresh_metadata(&mut self, answers: Vec<Result<ClusterMeta>>) -> (r: Result<()>)
        ensures
            final(self).bootstrap == old(self).bootstrap,
            final(self).retry_timeout_ms == old(self).retry_timeout_ms,
            final(self).retry_backoff_ms == old(self).retry_backoff_ms,
            match newest(answers@, answers@.len() as int) {
                Some(k) => r is Ok && answers@[k] == Ok::<ClusterMeta, ClientError>(
                    final(self).meta,
                ),
                None => r is Err && final(self).meta == old(self).meta && (if answers@.len() == 0 {
                    r->Err_0@ == CallFault::Closed
                } else {
                    answers@.last() == Err::<ClusterMeta, ClientError>(r->Err_0)
                }),
            },
    {
        let ghost rs = answers@;
        let mut best: Option<ClusterMeta> = None;
        let mut last_err: ClientError = ClientError::Closed;
        for x in it: answers
            invariant
                it.seq() == answers@,
                rs == answers@,
                *self == *old(self),
                match newest(rs, it.index()) {
                    Some(k) => 0 <= k < it.index() && best is Some && rs[k] == Ok::<
                        ClusterMeta,
                        ClientError,
                    >(best->0),
                    None => best is None,
                },
                newest(rs, it.index()) is None ==> if it.index() == 0 {
                    last_err@ == CallFault::Closed
                } else {
                    rs[it.index() - 1] == Err::<ClusterMeta, ClientError>(last_err)
                },
        {
            proof {
                assert(rs[it.index() as int] == x);
            }
            match x {
                Ok(cluster) => {
                    let better: bool = match &best {
                        Some(b) => cluster.version > b.version,
                        None => true,
                    };
                    if better {
                        best = Some(cluster);
                    }
                },
                Err(e) => {
                    last_err = e;
                },
            }
        }
        match best {
            Some(cluster) => {
                self.meta = cluster;
                Ok(())
            },
            None => Err(last_err),
        }
    }

    /// The metadata that the client goes by.
    pub fn metadata(&self) -> (r: ClusterMeta)
        ensures
            cluster_vals(r) == cluster_vals(self.meta),
    {
        copy_meta(&self.meta)
    }

    /// Where to find the leader of a partition, and the epoch it leads in.
    pub fn leader_for(&self, topic: &str, partition: u32) -> (r: Option<(String, u64)>)
        ensures
            match leader_addr(self.meta, topic@, partition) {
                Some((addr, epoch)) => r matches Some(x) && x.0@ == addr && x.1 == epoch,
                None => r is None,
            },
    {
        let t: usize = match find_topic(&self.meta.topics, topic) {
            Some(t) => t,
            None => {
                return None;
            },
        };
        let p: usize = match find_partition(&self.meta.topics[t].partitions, partition) {
            Some(p) => p,
            None => {
                return None;
            },
        };
        let leader: i32 = self.meta.topics[t].partitions[p].leader;
        let epoch: u64 = self.meta.topics[t].partitions[p].leader_epoch;
        if leader < 0 {
            return None;
        }
        match find_addr(&self.meta.brokers, leader as u32) {
            Some(i) => Some((self.meta.brokers[i].1.clone(), epoch)),
            None => None,
        }
    }
}

} // verus!
