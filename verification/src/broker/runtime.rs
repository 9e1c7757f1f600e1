//! A broker in a cluster: it registers with the controller, heartbeats, and
//! applies metadata changes (replica creation, role transitions, fetcher
//! lifecycle, ISR proposals).

use super::cluster::{
    advanced, covered, leads, next_hwm, role_action, role_applied, role_unchanged, wanted_isr,
    Pending, ReplState, ReplView, Replica, RoleAction, RoleChange,
};
use super::groups::{all_expired, groups_room, member_count, silent_count, Groups};
use super::{
    lemma_replica_index, partition_counts, replica_index, replicas_distinct, Broker, BrokerView,
    ReplicaInfo,
};
use crate::client::cluster::{addr_of, find_addr};
use crate::client::{ClientError, Connection};
use crate::ids::{has_id, sorted_ids};
use crate::proto::{ClusterMeta, ErrorCode, PartitionMeta, Request, Response};
use vstd::prelude::*;

verus! {

/// How often a broker speaks to its controller.
pub const HEARTBEAT_MS: u64 = 300;

/// Whether the controller took the registration in; a broker that it did not
/// drops the connection.
pub fn is_registered(reply: std::result::Result<Response, ClientError>) -> (r: bool)
    ensures
        r == (reply matches Ok(Response::RegisterBroker { error, .. }) && error
            == ErrorCode::NoError),
{
    match reply {
        Ok(Response::RegisterBroker { error, .. }) => error == ErrorCode::NoError,
        _ => false,
    }
}

/// What a broker does after a heartbeat.
#[derive(Clone, Copy, PartialEq, Eq, Structural)]
pub enum HeartbeatStep {
    /// Ask for the metadata, which changed.
    Refresh,
    /// Go on: nothing changed.
    Proceed,
    /// The controller does not know this broker: register again.
    Register,
    /// Drop the connection.
    Disconnect,
}

/// Decides on the answer to a heartbeat. `forced` means that something in the
/// broker asked for fresh metadata.
pub fn after_heartbeat(
    reply: std::result::Result<Response, ClientError>,
    local_version: u64,
    forced: bool,
) -> (r: HeartbeatStep)
    ensures
        r == (match reply {
            Ok(Response::BrokerHeartbeat { error, metadata_version }) => if error
                != ErrorCode::NoError {
                HeartbeatStep::Register
            } else if metadata_version != local_version || forced {
                HeartbeatStep::Refresh
            } else {
                HeartbeatStep::Proceed
            },
            _ => HeartbeatStep::Disconnect,
        }),
        r is Disconnect <==> !(reply matches Ok(Response::BrokerHeartbeat { .. })),
        r is Register <==> (reply matches Ok(Response::BrokerHeartbeat { error, .. }) && error
            != ErrorCode::NoError),
{
    match reply {
        Ok(Response::BrokerHeartbeat { error, metadata_version }) => {
            if error != ErrorCode::NoError {
                HeartbeatStep::Register
            } else if metadata_version != local_version || forced {
                HeartbeatStep::Refresh
            } else {
                HeartbeatStep::Proceed
            }
        },
        _ => HeartbeatStep::Disconnect,
    }
}

/// The metadata in the controller's answer; a broker that gets none drops the
/// connection.
pub fn metadata_in(reply: std::result::Result<Response, ClientError>) -> (r: Option<ClusterMeta>)
    ensures
        r == (match reply {
            Ok(response) => match response {
                Response::ControllerMetadata { error, cluster } => if error == ErrorCode::NoError {
                    Some(cluster)
                } else {
                    None
                },
                _ => None,
            },
            Err(_) => None,
        }),
{
    match reply {
        Ok(response) => match Connection::controller_metadata(response) {
            Ok(cluster) => Some(cluster),
            Err(_) => None,
        },
        Err(_) => None,
    }
}

/// The address of a broker: the one for its peers, if metadata gives one.
pub open spec fn peer_addr(meta: ClusterMeta, id: u32) -> Option<Seq<char>> {
    match addr_of(meta.peers@, id, 0) {
        Some(i) => Some(meta.peers@[i].1@),
        None => match addr_of(meta.brokers@, id, 0) {
            Some(i) => Some(meta.brokers@[i].1@),
            None => None,
        },
    }
}

fn find_peer(meta: &ClusterMeta, id: u32) -> (r: Option<String>)
    ensures
        match peer_addr(*meta, id) {
            Some(addr) => r matches Some(a) && a@ == addr,
            None => r is None,
        },
{
    match find_addr(&meta.peers, id) {
        Some(i) => Some(meta.peers[i].1.clone()),
        None => match find_addr(&meta.brokers, id) {
            Some(i) => Some(meta.brokers[i].1.clone()),
            None => None,
        },
    }
}

/// What to start for a replica after metadata spoke of it.
pub enum Start {
    Nothing,
    /// Note in the partition's history that the epoch starts at the log's end.
    Epoch(u64),
    /// Run a fetcher.
    Fetcher { generation: u64, epoch: u64, leader_addr: String },
}

/// What metadata led to: the parked produces that fail, those that the
/// high-water mark now covers, and what to start.
pub struct Applied {
    pub failed: Vec<Pending>,
    pub ready: Vec<Pending>,
    pub start: Start,
}

/// What to start for a replica.
pub open spec fn starts(start: Start, action: RoleAction, meta: ClusterMeta, p: PartitionMeta) -> bool {
    match action {
        RoleAction::Lead => start == Start::Epoch(p.leader_epoch),
        RoleAction::Follow { generation } => match peer_addr(meta, p.leader as u32) {
            Some(addr) => start matches Start::Fetcher { generation: g, epoch, leader_addr } && g
                == generation && epoch == p.leader_epoch && leader_addr@ == addr,
            None => start is Nothing,
        },
        _ => start is Nothing,
    }
}

/// A replica's state after metadata spoke of it, and a look at the high-water
/// mark where its role stands or it leads.
pub open spec fn role_settled(
    v: ReplView,
    p: PartitionMeta,
    self_id: u32,
    log_end: u64,
    now_ms: u64,
) -> ReplView {
    let w = role_applied(v, p, self_id, now_ms);
    match role_action(v, p, self_id) {
        RoleAction::Keep => advanced(w, self_id, log_end),
        RoleAction::Lead => advanced(w, self_id, log_end),
        _ => w,
    }
}

/// The produces that a look at the high-water mark acknowledges.
pub open spec fn newly_covered(v: ReplView, self_id: u32, log_end: u64) -> Seq<Pending> {
    if v.is_leader {
        covered(v.pending, next_hwm(v, self_id, log_end))
    } else {
        Seq::empty()
    }
}

/// A broker with one replica in another state.
pub open spec fn with_state(s: BrokerView, i: int, v: ReplView) -> BrokerView {
    BrokerView {
        replicas: s.replicas.update(i, ReplicaInfo { state: v, ..s.replicas[i] }),
        ..s
    }
}

/// Whether a broker hosts a partition, as metadata says.
pub open spec fn hosts_replica(p: PartitionMeta, id: u32) -> bool {
    p.replicas@.contains(id)
}

impl Broker {
    /// The registration with the controller. Clients are told the advertised
    /// address, the bound one by default; peers theirs, by default the same.
    pub fn registration(&self) -> (r: Request)
        ensures
            ({
                let addr = match self@.config.advertise_addr {
                    Some(a) => a@,
                    None => self@.advertised,
                };
                r matches Request::RegisterBroker { broker_id, addr: a, peer_addr: p } && broker_id
                    == self@.id && a@ == addr && p@ == (match self@.config.advertise_peer_addr {
                    Some(x) => x@,
                    None => addr,
                })
            }),
    {
        let addr: String = match &self.config.advertise_addr {
            Some(a) => a.clone(),
            None => self.advertised.clone(),
        };
        let peer_addr: String = match &self.config.advertise_peer_addr {
            Some(a) => a.clone(),
            None => addr.clone(),
        };
        Request::RegisterBroker { broker_id: self.config.broker_id, addr, peer_addr }
    }

    /// The heartbeat of a broker whose metadata has that version.
    pub fn heartbeat(&self, local_version: u64) -> (r: Request)
        ensures
            r == (Request::BrokerHeartbeat {
                broker_id: self@.id,
                metadata_version: local_version,
            }),
    {
        Request::BrokerHeartbeat {
            broker_id: self.config.broker_id,
            metadata_version: local_version,
        }
    }

    /// Whether the broker hosts a partition's replica.
    pub fn has_replica(&self, topic: &str, partition: u32) -> (r: bool)
        ensures
            r == (replica_index(self@.replicas, topic@, partition) is Some),
    {
        self.find_replica(topic, partition).is_some()
    }

    /// Takes in a replica whose log is open, unless it is there.
    pub fn add_replica(&mut self, topic: String, partition: u32, now_ms: u64)
        requires
            old(self).ok(),
        ensures
            final(self).ok(),
            replica_index(old(self)@.replicas, topic@, partition) is Some ==> final(self)@ == old(
                self,
            )@,
            replica_index(old(self)@.replicas, topic@, partition) is None ==> final(self)@ == (
            BrokerView {
                replicas: old(self)@.replicas.push(
                    ReplicaInfo { topic: topic@, partition, state: fresh_replica(now_ms) },
                ),
                ..old(self)@
            }),
    {
        let ghost s = self@;
        if self.find_replica(topic.as_str(), partition).is_some() {
            return;
        }
        let ghost name = topic@;
        self.replicas.push(Replica { topic, partition, state: ReplState::new(now_ms) });
        proof {
            lemma_replica_index(s.replicas, name, partition);
            let info = ReplicaInfo { topic: name, partition, state: fresh_replica(now_ms) };
            assert(self@.replicas =~= s.replicas.push(info));
        }
    }

    proof fn lemma_state_kept(s: BrokerView, i: int, v: ReplView)
        requires
            replicas_distinct(s.replicas),
            0 <= i < s.replicas.len(),
        ensures
            replicas_distinct(with_state(s, i, v).replicas),
    {
        let r = with_state(s, i, v).replicas;
        assert forall|a: int, b: int| 0 <= a < b < r.len() implies (#[trigger] r[a]).topic != (
        #[trigger] r[b]).topic || r[a].partition != r[b].partition by {
            assert(s.replicas[a].topic == r[a].topic && s.replicas[a].partition == r[a].partition);
            assert(s.replicas[b].topic == r[b].topic && s.replicas[b].partition == r[b].partition);
        }
    }

    /// Applies what metadata says of a partition that this broker hosts.
    /// `log_end` is the end of the partition's log. Nothing happens where the
    /// replica could not be opened.
    pub fn apply_partition(
        &mut self,
        meta: &ClusterMeta,
        topic: &str,
        p: &PartitionMeta,
        log_end: u64,
        now_ms: u64,
    ) -> (r: Option<Applied>)
        requires
            old(self).ok(),
            replica_index(old(self)@.replicas, topic@, p.partition) matches Some(i) ==> old(
                self,
            )@.replicas[i].state.generation < u64::MAX,
        ensures
            final(self).ok(),
            match replica_index(old(self)@.replicas, topic@, p.partition) {
                None => r is None && final(self)@ == old(self)@,
                Some(i) => {
                    let s = old(self)@;
                    let v = s.replicas[i].state;
                    let action = role_action(v, *p, s.id);
                    let w = role_applied(v, *p, s.id, now_ms);
                    &&& final(self)@ == with_state(
                        s,
                        i,
                        role_settled(v, *p, s.id, log_end, now_ms),
                    )
                    &&& r matches Some(x) && starts(x.start, action, *meta, *p) && x.failed@ == (
                    if role_unchanged(v, *p, s.id) || leads(*p, s.id) {
                        Seq::empty()
                    } else {
                        v.pending
                    }) && x.ready@ == (if action is Keep || action is Lead {
                        newly_covered(w, s.id, log_end)
                    } else {
                        Seq::empty()
                    })
                },
            },
    {
        let ghost s = self@;
        let i: usize = match self.find_replica(topic, p.partition) {
            Some(i) => i,
            None => {
                return None;
            },
        };
        let self_id: u32 = self.config.broker_id;
        let replica: &mut Replica = &mut self.replicas[i];
        let ghost v = replica.state@;
        assert(v == s.replicas[i as int].state);
        let change: RoleChange = replica.state.apply_role(p, self_id, now_ms);
        let mut ready: Vec<Pending> = Vec::new();
        let start: Start = match change.action {
            RoleAction::Keep => {
                ready = replica.state.advance_hwm(self_id, log_end);
                Start::Nothing
            },
            RoleAction::Lead => {
                ready = replica.state.advance_hwm(self_id, log_end);
                Start::Epoch(p.leader_epoch)
            },
            RoleAction::Follow { generation } => match find_peer(meta, p.leader as u32) {
                Some(leader_addr) => Start::Fetcher {
                    generation,
                    epoch: p.leader_epoch,
                    leader_addr,
                },
                None => Start::Nothing,
            },
            RoleAction::Wait => Start::Nothing,
        };
        proof {
            let w = role_settled(v, *p, s.id, log_end, now_ms);
            assert(self.replicas@[i as int]@ == ReplicaInfo { state: w, ..s.replicas[i as int] });
            assert(self@.replicas =~= with_state(s, i as int, w).replicas);
            Self::lemma_state_kept(s, i as int, w);
        }
        Some(Applied { failed: change.failed, ready, start })
    }

    /// The metadata that was applied.
    pub fn set_meta(&mut self, meta: ClusterMeta)
        requires
            old(self).ok(),
        ensures
            final(self).ok(),
            final(self)@ == (BrokerView { meta, ..old(self)@ }),
    {
        self.cluster_meta = meta;
    }

    pub fn replica_count(&self) -> (r: usize)
        ensures
            r == self@.replicas.len(),
    {
        self.replicas.len()
    }

    /// The change of ISR that the leader of replica `i` proposes to the
    /// controller, who owns the decision.
    pub fn isr_proposal(&self, i: usize, now_ms: u64) -> (r: Option<Request>)
        requires
            i < self@.replicas.len(),
        ensures
            ({
                let info = self@.replicas[i as int];
                let wanted = wanted_isr(info.state, self@.id, now_ms, self@.lag_ms);
                if !info.state.is_leader || wanted == sorted_ids(info.state.isr) {
                    r is None
                } else {
                    r matches Some(Request::AlterIsr { topic, partition, leader_epoch, isr })
                        && topic@ == info.topic && partition == info.partition && leader_epoch
                        == info.state.epoch && isr@ == wanted
                }
            }),
    {
        let replica: &Replica = &self.replicas[i];
        assert(replica@ == self@.replicas[i as int]);
        match replica.state.isr_proposal(
            self.config.broker_id,
            now_ms,
            self.config.replica_lag_ms,
        ) {
            Some(proposal) => {
                let (leader_epoch, isr): (u64, Vec<u32>) = proposal;
                Some(
                    Request::AlterIsr {
                        topic: replica.topic.clone(),
                        partition: replica.partition,
                        leader_epoch,
                        isr,
                    },
                )
            },
            None => None,
        }
    }

    /// Takes in the controller's answer to a proposal. Returns the produces that
    /// the high-water mark now covers, and whether the metadata is stale.
    pub fn isr_answered(
        &mut self,
        i: usize,
        epoch: u64,
        isr: Vec<u32>,
        reply: std::result::Result<Response, ClientError>,
        log_end: u64,
    ) -> (r: (Vec<Pending>, bool))
        requires
            old(self).ok(),
            i < old(self)@.replicas.len(),
        ensures
            final(self).ok(),
            match reply {
                Ok(Response::AlterIsr { error, .. }) => if error == ErrorCode::NoError {
                    let s = old(self)@;
                    let v = s.replicas[i as int].state;
                    let w = if v.is_leader && v.epoch == epoch {
                        ReplView { isr: isr@, ..v }
                    } else {
                        v
                    };
                    &&& final(self)@ == with_state(s, i as int, advanced(w, s.id, log_end))
                    &&& r.0@ == newly_covered(w, s.id, log_end)
                    &&& !r.1
                } else {
                    final(self)@ == old(self)@ && r.0@.len() == 0 && r.1
                },
                _ => final(self)@ == old(self)@ && r.0@.len() == 0 && !r.1,
            },
            r.1 <==> (reply matches Ok(Response::AlterIsr { error, .. }) && error != ErrorCode::NoError),
    {
        let ghost s = self@;
        match reply {
            Ok(Response::AlterIsr { error, .. }) => {
                if error != ErrorCode::NoError {
                    return (Vec::new(), true);
                }
                let self_id: u32 = self.config.broker_id;
                let replica: &mut Replica = &mut self.replicas[i];
                let ghost v = replica.state@;
                assert(v == s.replicas[i as int].state);
                let ghost w = if v.is_leader && v.epoch == epoch {
                    ReplView { isr: isr@, ..v }
                } else {
                    v
                };
                replica.state.accept_isr(epoch, isr);
                let ready: Vec<Pending> = replica.state.advance_hwm(self_id, log_end);
                proof {
                    let x = advanced(w, s.id, log_end);
                    assert(self.replicas@[i as int]@ == ReplicaInfo {
                        state: x,
                        ..s.replicas[i as int]
                    });
                    assert(self@.replicas =~= with_state(s, i as int, x).replicas);
                    Self::lemma_state_kept(s, i as int, x);
                }
                (ready, false)
            },
            _ => (Vec::new(), false),
        }
    }

    /// Looks at a replica's high-water mark after its log grew. Returns the
    /// produces that it now covers.
    pub fn log_grew(&mut self, topic: &str, partition: u32, log_end: u64) -> (ready: Vec<Pending>)
        requires
            old(self).ok(),
        ensures
            final(self).ok(),
            match replica_index(old(self)@.replicas, topic@, partition) {
                None => ready@.len() == 0 && final(self)@ == old(self)@,
                Some(i) => {
                    let v = old(self)@.replicas[i].state;
                    &&& final(self)@ == with_state(
                        old(self)@,
                        i,
                        advanced(v, old(self)@.id, log_end),
                    )
                    &&& ready@ == newly_covered(v, old(self)@.id, log_end)
                },
            },
    {
        let ghost s = self@;
        let i: usize = match self.find_replica(topic, partition) {
            Some(i) => i,
            None => {
                return Vec::new();
            },
        };
        let self_id: u32 = self.config.broker_id;
        let replica: &mut Replica = &mut self.replicas[i];
        let ghost v = replica.state@;
        assert(v == s.replicas[i as int].state);
        let ready: Vec<Pending> = replica.state.advance_hwm(self_id, log_end);
        proof {
            let x = advanced(v, s.id, log_end);
            assert(self.replicas@[i as int]@ == ReplicaInfo { state: x, ..s.replicas[i as int] });
            assert(self@.replicas =~= with_state(s, i as int, x).replicas);
            Self::lemma_state_kept(s, i as int, x);
        }
        ready
    }

    /// Parks an acks=all produce until the high-water mark covers it, and looks
    /// at the mark. Returns the produces that it covers.
    pub fn park_produce(
        &mut self,
        topic: &str,
        partition: u32,
        base_offset: u64,
        count: u32,
        ticket: u64,
        log_end: u64,
    ) -> (ready: Vec<Pending>)
        requires
            old(self).ok(),
            count > 0,
            base_offset + count <= u64::MAX,
        ensures
            final(self).ok(),
            match replica_index(old(self)@.replicas, topic@, partition) {
                None => ready@.len() == 0 && final(self)@ == old(self)@,
                Some(i) => {
                    let v = old(self)@.replicas[i].state;
                    let w = ReplView {
                        pending: v.pending.push(
                            Pending {
                                last_offset: (base_offset + count - 1) as u64,
                                base_offset,
                                count,
                                ticket,
                            },
                        ),
                        ..v
                    };
                    &&& final(self)@ == with_state(
                        old(self)@,
                        i,
                        advanced(w, old(self)@.id, log_end),
                    )
                    &&& ready@ == newly_covered(w, old(self)@.id, log_end)
                },
            },
    {
        let ghost s = self@;
        let i: usize = match self.find_replica(topic, partition) {
            Some(i) => i,
            None => {
                return Vec::new();
            },
        };
        let self_id: u32 = self.config.broker_id;
        let replica: &mut Replica = &mut self.replicas[i];
        let ghost v = replica.state@;
        assert(v == s.replicas[i as int].state);
        replica.state.park(base_offset, count, ticket);
        let ghost w = replica.state@;
        let ready: Vec<Pending> = replica.state.advance_hwm(self_id, log_end);
        proof {
            let x = advanced(w, s.id, log_end);
            assert(self.replicas@[i as int]@ == ReplicaInfo { state: x, ..s.replicas[i as int] });
            assert(self@.replicas =~= with_state(s, i as int, x).replicas);
            Self::lemma_state_kept(s, i as int, x);
        }
        ready
    }

    /// The high-water mark of a replica.
    pub fn high_watermark(&self, topic: &str, partition: u32) -> (r: Option<u64>)
        ensures
            r == (match replica_index(self@.replicas, topic@, partition) {
                Some(i) => Some(self@.replicas[i].state.hwm),
                None => None,
            }),
    {
        match self.find_replica(topic, partition) {
            Some(i) => {
                let replica: &Replica = &self.replicas[i];
                assert(replica@ == self@.replicas[i as int]);
                Some(replica.state.high_watermark)
            },
            None => None,
        }
    }

    /// Whether the fetcher of that generation still speaks for a replica.
    pub fn fetcher_is_current(&self, topic: &str, partition: u32, generation: u64) -> (r: bool)
        ensures
            r == (match replica_index(self@.replicas, topic@, partition) {
                Some(i) => !self@.replicas[i].state.is_leader && self@.replicas[i].state.generation
                    == generation,
                None => false,
            }),
    {
        match self.find_replica(topic, partition) {
            Some(i) => {
                let replica: &Replica = &self.replicas[i];
                assert(replica@ == self@.replicas[i as int]);
                replica.state.is_current(generation)
            },
            None => false,
        }
    }

    /// The fetcher of that generation has ended: another may be started, even
    /// without a change of metadata.
    pub fn fetcher_ended(&mut self, topic: &str, partition: u32, generation: u64)
        requires
            old(self).ok(),
        ensures
            final(self).ok(),
            match replica_index(old(self)@.replicas, topic@, partition) {
                None => final(self)@ == old(self)@,
                Some(i) => {
                    let v = old(self)@.replicas[i].state;
                    final(self)@ == with_state(
                        old(self)@,
                        i,
                        if v.generation == generation {
                            ReplView { alive: false, ..v }
                        } else {
                            v
                        },
                    )
                },
            },
    {
        let ghost s = self@;
        if let Some(i) = self.find_replica(topic, partition) {
            let replica: &mut Replica = &mut self.replicas[i];
            let ghost v = replica.state@;
            assert(v == s.replicas[i as int].state);
            replica.state.fetcher_ended(generation);
            proof {
                let x = if v.generation == generation {
                    ReplView { alive: false, ..v }
                } else {
                    v
                };
                assert(self.replicas@[i as int]@ == ReplicaInfo {
                    state: x,
                    ..s.replicas[i as int]
                });
                assert(self@.replicas =~= with_state(s, i as int, x).replicas);
                Self::lemma_state_kept(s, i as int, x);
            }
        }
    }

    /// Tells the fetcher of replica `i` to die and fails its parked produces,
    /// which are returned.
    pub fn invalidate_replica(&mut self, i: usize) -> (failed: Vec<Pending>)
        requires
            old(self).ok(),
            i < old(self)@.replicas.len(),
            old(self)@.replicas[i as int].state.generation < u64::MAX,
        ensures
            final(self).ok(),
            ({
                let v = old(self)@.replicas[i as int].state;
                &&& failed@ == v.pending
                &&& final(self)@ == with_state(
                    old(self)@,
                    i as int,
                    ReplView {
                        generation: (v.generation + 1) as u64,
                        alive: false,
                        is_leader: false,
                        pending: Seq::empty(),
                        ..v
                    },
                )
            }),
    {
        let ghost s = self@;
        let replica: &mut Replica = &mut self.replicas[i];
        let ghost v = replica.state@;
        assert(v == s.replicas[i as int].state);
        let failed: Vec<Pending> = replica.state.invalidate();
        proof {
            let x = ReplView {
                generation: (v.generation + 1) as u64,
                alive: false,
                is_leader: false,
                pending: Seq::empty(),
                ..v
            };
            assert(self.replicas@[i as int]@ == ReplicaInfo { state: x, ..s.replicas[i as int] });
            assert(self@.replicas =~= with_state(s, i as int, x).replicas);
            Self::lemma_state_kept(s, i as int, x);
        }
        failed
    }

    /// A commit is in the offsets log.
    pub fn commit_done(&mut self, group: String, topic: String, partition: u32, offset: u64)
        requires
            old(self).ok(),
        ensures
            final(self).ok(),
            final(self)@ == (BrokerView {
                offsets: old(self)@.offsets.insert((group@, topic@, partition), offset),
                ..old(self)@
            }),
            final(self)@.offsets.contains_key((group@, topic@, partition)),
            final(self)@.offsets[(group@, topic@, partition)] == offset,
    {
        self.offsets.commit(group, topic, partition, offset);
    }

    /// Whether there is room for another rebalance of each group.
    pub fn groups_have_room(&self) -> (r: bool)
        ensures
            r == groups_room(self@.groups.groups),
    {
        self.groups.has_room()
    }

    /// Whether the members of all groups can be counted.
    pub fn members_are_countable(&self, now_ms: u64) -> (r: bool)
        ensures
            r ==> silent_count(self@.groups.groups, now_ms) <= usize::MAX,
            !r ==> member_count(self@.groups.groups) > usize::MAX,
    {
        self.groups.is_countable(now_ms)
    }

    /// Whether a replica's fetchers have generations left; there are none to run
    /// out of where it is not hosted here.
    pub fn has_generations(&self, topic: &str, partition: u32) -> (r: bool)
        ensures
            r == (replica_index(self@.replicas, topic@, partition) matches Some(i)
                ==> self@.replicas[i].state.generation < u64::MAX),
    {
        match self.find_replica(topic, partition) {
            Some(i) => {
                let replica: &Replica = &self.replicas[i];
                assert(self@.replicas[i as int] == replica@);
                replica.state.fetcher_generation < u64::MAX
            },
            None => true,
        }
    }

    /// Evicts the members of groups that were silent past their session
    /// timeouts; returns how many.
    pub fn expire_members(&mut self, now_ms: u64) -> (r: usize)
        requires
            old(self).ok(),
            groups_room(old(self)@.groups.groups),
            silent_count(old(self)@.groups.groups, now_ms) <= usize::MAX,
        ensures
            final(self).ok(),
            final(self)@ == (BrokerView {
                groups: Groups {
                    groups: all_expired(
                        old(self)@.groups.groups,
                        now_ms,
                        partition_counts(old(self)@),
                    ),
                    ..old(self)@.groups
                },
                ..old(self)@
            }),
            r == silent_count(old(self)@.groups.groups, now_ms),
    {
        let counts: Vec<(String, u32)> = self.counts();
        self.groups.expire(&counts, now_ms)
    }
}

/// A replica that has no role yet.
pub open spec fn fresh_replica(now_ms: u64) -> ReplView {
    ReplView {
        epoch: 0,
        is_leader: false,
        isr: Seq::empty(),
        replicas: Seq::empty(),
        progress: Map::empty(),
        pending: Seq::empty(),
        generation: 0,
        alive: false,
        leader_since: now_ms,
        hwm: 0,
    }
}

/// Whether metadata makes broker `id` host a partition.
pub fn is_replica(p: &PartitionMeta, id: u32) -> (r: bool)
    ensures
        r == hosts_replica(*p, id),
{
    has_id(&p.replicas, id)
}

} // verus!
