//! The group-membership consumer: join → poll/heartbeat → commit, with
//! automatic rejoin when a rebalance leaves this member behind.
//!
//! Heartbeats are poll-driven (like pre-KIP-62 Kafka): a consumer that stops
//! polling stops heartbeating and gets evicted after its session timeout —
//! which is honest, because a stalled consumer isn't making progress anyway.

use super::{position_after, CallFault, ClientError, Connection, Result};
use crate::broker::groups::slots;
use crate::order::texts;
use crate::proto::{ErrorCode, FetchedRecord, Request, Response};
use vstd::prelude::*;

verus! {

pub struct GroupConsumer {
    group: String,
    topics: Vec<String>,
    session_timeout_ms: u32,
    member_id: String,
    generation: u64,
    assignment: Vec<(String, u32)>,
    /// The next offset to read of each assigned partition.
    positions: Vec<u64>,
    last_heartbeat_ms: u64,
    round_robin: usize,
    max_bytes: u32,
    max_wait_ms: u32,
}

pub ghost struct Membership {
    pub group: Seq<char>,
    pub topics: Seq<Seq<char>>,
    pub timeout_ms: u32,
    pub member_id: Seq<char>,
    pub generation: u64,
    pub assignment: Seq<(Seq<char>, u32)>,
    pub positions: Seq<u64>,
    pub last_heartbeat: u64,
    pub turn: usize,
    pub max_bytes: u32,
    pub max_wait_ms: u32,
}

impl View for GroupConsumer {
    type V = Membership;

    closed spec fn view(&self) -> Membership {
        Membership {
            group: self.group@,
            topics: texts(self.topics@),
            timeout_ms: self.session_timeout_ms,
            member_id: self.member_id@,
            generation: self.generation,
            assignment: slots(self.assignment@),
            positions: self.positions@,
            last_heartbeat: self.last_heartbeat_ms,
            turn: self.round_robin,
            max_bytes: self.max_bytes,
            max_wait_ms: self.max_wait_ms,
        }
    }
}

/// What a join brought; it takes effect once the committed offsets of what was
/// assigned are known.
pub struct Joined {
    pub member_id: String,
    pub generation: u64,
    pub assignment: Vec<(String, u32)>,
}

/// What follows a heartbeat.
pub enum HeartbeatTurn {
    /// The membership stands.
    Proceed,
    /// A rebalance left this member behind: join again.
    Rejoin,
    Fail(ClientError),
}

/// What follows a commit.
pub enum CommitTurn {
    Proceed,
    /// The group rebalanced under this member: join again, and report the code —
    /// records consumed since the last successful commit will be redelivered to
    /// their new owner (at-least-once, by design).
    Rejoin(ErrorCode),
    Fail(ClientError),
}

/// How long a member may go without a heartbeat: a third of its session.
pub open spec fn heartbeat_interval(timeout_ms: u32) -> u32 {
    if timeout_ms / 3 == 0 {
        1
    } else {
        timeout_ms / 3
    }
}

/// Whether an error says that a rebalance left the member behind.
pub open spec fn left_behind(code: ErrorCode) -> bool {
    code == ErrorCode::StaleGeneration || code == ErrorCode::UnknownMember
}

/// Decides on the answer to a heartbeat.
pub fn after_heartbeat(resp: Response) -> (turn: HeartbeatTurn)
    ensures
        match resp {
            Response::Heartbeat { error } => if error == ErrorCode::NoError {
                turn is Proceed
            } else if left_behind(error) {
                turn is Rejoin
            } else {
                turn matches HeartbeatTurn::Fail(e) && e@ == CallFault::Broker(error)
            },
            _ => turn matches HeartbeatTurn::Fail(e) && e@ == CallFault::UnexpectedResponse,
        },
        resp == (Response::Heartbeat { error: ErrorCode::NoError }) <==> turn is Proceed,
        resp == (Response::Heartbeat { error: ErrorCode::StaleGeneration }) || resp == (
        Response::Heartbeat { error: ErrorCode::UnknownMember }) <==> turn is Rejoin,
{
    match resp {
        Response::Heartbeat { error } => {
            if error == ErrorCode::NoError {
                HeartbeatTurn::Proceed
            } else if error == ErrorCode::StaleGeneration || error == ErrorCode::UnknownMember {
                HeartbeatTurn::Rejoin
            } else {
                HeartbeatTurn::Fail(ClientError::Broker(error))
            }
        },
        _ => HeartbeatTurn::Fail(ClientError::UnexpectedResponse),
    }
}

/// Decides on the outcome of a commit.
pub fn after_commit(result: Result<()>) -> (turn: CommitTurn)
    ensures
        match result {
            Ok(_) => turn is Proceed,
            Err(e) => match e {
                ClientError::Broker(code) => if left_behind(code) {
                    turn == CommitTurn::Rejoin(code)
                } else {
                    turn == CommitTurn::Fail(e)
                },
                _ => turn == CommitTurn::Fail(e),
            },
        },
        result is Ok <==> turn is Proceed,
        result == Err::<(), ClientError>(ClientError::Broker(ErrorCode::StaleGeneration)) || result
            == Err::<(), ClientError>(ClientError::Broker(ErrorCode::UnknownMember)) <==> turn is Rejoin,
{
    match result {
        Ok(_) => CommitTurn::Proceed,
        Err(ClientError::Broker(code)) => {
            if code == ErrorCode::StaleGeneration || code == ErrorCode::UnknownMember {
                CommitTurn::Rejoin(code)
            } else {
                CommitTurn::Fail(ClientError::Broker(code))
            }
        },
        Err(e) => CommitTurn::Fail(e),
    }
}

/// What the answer to a join brought.
pub fn joined(resp: Response) -> (r: Result<Joined>)
    ensures
        match resp {
            Response::JoinGroup { error, member_id, generation, assignment } => if error
                == ErrorCode::NoError {
                r == Ok::<Joined, ClientError>(Joined { member_id, generation, assignment })
            } else {
                super::failed(r, error)
            },
            _ => super::unexpected(r),
        },
{
    match resp {
        Response::JoinGroup { error, member_id, generation, assignment } => {
            if error == ErrorCode::NoError {
                Ok(Joined { member_id, generation, assignment })
            } else {
                Err(ClientError::Broker(error))
            }
        },
        _ => Err(ClientError::UnexpectedResponse),
    }
}

/// Where reading starts: at the committed offsets, or at 0 where there is none.
pub open spec fn start_positions(committed: Seq<Option<u64>>) -> Seq<u64> {
    committed.map_values(
        |c: Option<u64>|
            match c {
                Some(o) => o,
                None => 0,
            },
    )
}

impl GroupConsumer {
    /// There is a position for each assigned partition.
    pub open spec fn ok(self) -> bool {
        self@.positions.len() == self@.assignment.len()
    }

    /// A consumer that has yet to join.
    pub fn new(group: String, topics: Vec<String>, session_timeout_ms: u32, now_ms: u64) -> (r: Self)
        ensures
            r.ok(),
            r@ == (Membership {
                group: group@,
                topics: texts(topics@),
                timeout_ms: session_timeout_ms,
                member_id: Seq::empty(),
                generation: 0,
                assignment: Seq::empty(),
                positions: Seq::empty(),
                last_heartbeat: now_ms,
                turn: 0,
                max_bytes: 1_048_576,
                max_wait_ms: 0,
            }),
    {
        let r = GroupConsumer {
            group,
            topics,
            session_timeout_ms,
            member_id: String::new(),
            generation: 0,
            assignment: Vec::new(),
            positions: Vec::new(),
            last_heartbeat_ms: now_ms,
            round_robin: 0,
            max_bytes: 1_048_576,
            max_wait_ms: 0,
        };
        assert(r@.assignment =~= Seq::empty());
        assert(r@.member_id =~= Seq::empty());
        r
    }

    /// How many bytes of records a fetch asks for.
    pub fn set_max_bytes(&mut self, max_bytes: u32)
        ensures
            final(self)@ == (Membership { max_bytes, ..old(self)@ }),
    {
        self.max_bytes = max_bytes;
    }

    /// How long a fetch may wait for records.
    pub fn set_max_wait_ms(&mut self, max_wait_ms: u32)
        ensures
            final(self)@ == (Membership { max_wait_ms, ..old(self)@ }),
    {
        self.max_wait_ms = max_wait_ms;
    }

    /// The request to (re)join.
    pub fn join(&self) -> (r: Request)
        ensures
            r matches Request::JoinGroup { group, member_id, session_timeout_ms, topics } && group@
                == self@.group && member_id@ == self@.member_id && session_timeout_ms
                == self@.timeout_ms && texts(topics@) == self@.topics,
    {
        let mut topics: Vec<String> = Vec::new();
        let mut i: usize = 0;
        while i < self.topics.len()
            invariant
                i <= self.topics@.len(),
                topics@.len() == i,
                forall|j: int| 0 <= j < i ==> (#[trigger] topics@[j])@ == self.topics@[j]@,
            decreases self.topics@.len() - i,
        {
            topics.push(self.topics[i].clone());
            i += 1;
        }
        assert(texts(topics@) =~= texts(self.topics@));
        Request::JoinGroup {
            group: self.group.clone(),
            member_id: self.member_id.clone(),
            session_timeout_ms: self.session_timeout_ms,
            topics,
        }
    }

    /// The request for the committed offset of a partition.
    pub fn committed_request(&self, topic: &str, partition: u32) -> (r: Request)
        ensures
            r matches Request::FetchOffset { group, topic: t, partition: p } && group@
                == self@.group && t@ == topic@ && p == partition,
    {
        Connection::fetch_offset(self.group.as_str(), topic, partition)
    }

    /// Takes a join in, with the committed offset of each partition assigned.
    pub fn rejoin(&mut self, joined: Joined, committed: &Vec<Option<u64>>, now_ms: u64)
        requires
            committed@.len() == joined.assignment@.len(),
        ensures
            final(self).ok(),
            final(self)@ == (Membership {
                member_id: joined.member_id@,
                generation: joined.generation,
                assignment: slots(joined.assignment@),
                positions: start_positions(committed@),
                last_heartbeat: now_ms,
                ..old(self)@
            }),
            final(self)@.generation == joined.generation,
            final(self)@.assignment.len() == joined.assignment@.len(),
    {
        let mut positions: Vec<u64> = Vec::new();
        let mut i: usize = 0;
        while i < committed.len()
            invariant
                i <= committed@.len(),
                positions@.len() == i,
                forall|j: int|
                    0 <= j < i ==> #[trigger] positions@[j] == start_positions(committed@)[j],
            decreases committed@.len() - i,
        {
            let at: u64 = match committed[i] {
                Some(o) => o,
                None => 0,
            };
            positions.push(at);
            i += 1;
        }
        assert(positions@ =~= start_positions(committed@));
        self.member_id = joined.member_id;
        self.generation = joined.generation;
        self.assignment = joined.assignment;
        self.positions = positions;
        self.last_heartbeat_ms = now_ms;
    }

    /// The heartbeat, if one is due.
    pub fn maybe_heartbeat(&self, now_ms: u64) -> (r: Option<Request>)
        ensures
            if now_ms - self@.last_heartbeat < heartbeat_interval(self@.timeout_ms) {
                r is None
            } else {
                r matches Some(Request::Heartbeat { group, member_id, generation }) && group@
                    == self@.group && member_id@ == self@.member_id && generation
                    == self@.generation
            },
            r is Some <==> now_ms - self@.last_heartbeat >= heartbeat_interval(self@.timeout_ms),
    {
        let interval: u32 = if self.session_timeout_ms / 3 == 0 {
            1
        } else {
            self.session_timeout_ms / 3
        };
        if now_ms < self.last_heartbeat_ms || now_ms - self.last_heartbeat_ms < interval as u64 {
            return None;
        }
        Some(
            Request::Heartbeat {
                group: self.group.clone(),
                member_id: self.member_id.clone(),
                generation: self.generation,
            },
        )
    }

    /// The heartbeat was answered, and the membership stands.
    pub fn heartbeat_done(&mut self, now_ms: u64)
        ensures
            final(self)@ == (Membership { last_heartbeat: now_ms, ..old(self)@ }),
    {
        self.last_heartbeat_ms = now_ms;
    }

    /// The next fetch, from the assigned partitions round-robin, with the place
    /// of its partition in the assignment; none where nothing is assigned. One
    /// poll makes as many as there are partitions, until one brings records.
    pub fn poll(&mut self) -> (r: Option<(usize, Request)>)
        requires
            old(self).ok(),
        ensures
            final(self).ok(),
            ({
                let s = old(self)@;
                if s.assignment.len() == 0 {
                    r is None && final(self)@ == s
                } else {
                    let k = s.turn as int % s.assignment.len() as int;
                    &&& final(self)@ == (Membership { turn: s.turn.wrapping_add(1), ..s })
                    &&& r matches Some((at, Request::Fetch {
                        topic,
                        partition,
                        offset,
                        max_bytes,
                        max_wait_ms,
                    })) && at == k && topic@ == s.assignment[k].0 && partition
                        == s.assignment[k].1 && offset == s.positions[k] && max_bytes
                        == s.max_bytes && max_wait_ms == s.max_wait_ms
                }
            }),
            ({
                let s = old(self)@;
                let n = s.assignment.len() as int;
                n > 0 && s.turn < usize::MAX ==> (r matches Some((at, _)) && final(self)@.turn as int % n
                    == (at + 1) % n)
            }),
    {
        let n: usize = self.assignment.len();
        if n == 0 {
            return None;
        }
        let at: usize = self.round_robin % n;
        proof {
            vstd::arithmetic::div_mod::lemma_add_mod_noop(self.round_robin as int, 1, n as int);
            vstd::arithmetic::div_mod::lemma_add_mod_noop(at as int, 1, n as int);
            vstd::arithmetic::div_mod::lemma_mod_twice(self.round_robin as int, n as int);
        }
        self.round_robin = self.round_robin.wrapping_add(1);
        let req: Request = Connection::fetch(
            self.assignment[at].0.as_str(),
            self.assignment[at].1,
            self.positions[at],
            self.max_bytes,
            self.max_wait_ms,
        );
        Some((at, req))
    }

    /// Takes in what a fetch of the partition at `at` brought, and goes on
    /// behind it.
    pub fn polled(&mut self, at: usize, records: &Vec<FetchedRecord>)
        requires
            old(self).ok(),
            at < old(self)@.positions.len(),
            records@.len() > 0 ==> records@.last().offset < u64::MAX,
        ensures
            final(self).ok(),
            final(self)@ == (Membership {
                positions: old(self)@.positions.update(
                    at as int,
                    position_after(old(self)@.positions[at as int], records@),
                ),
                ..old(self)@
            }),
    {
        let ghost s = self@;
        if records.len() > 0 {
            self.positions[at] = records[records.len() - 1].offset + 1;
        }
        assert(self@.positions =~= s.positions.update(
            at as int,
            position_after(s.positions[at as int], records@),
        ));
    }

    /// The commit of one assigned partition's position, fenced by (member_id,
    /// generation).
    pub fn commit(&self, at: usize) -> (r: Request)
        requires
            self.ok(),
            at < self@.assignment.len(),
        ensures
            r matches Request::CommitOffset {
                group,
                topic,
                partition,
                offset,
                member_id,
                generation,
            } && group@ == self@.group && topic@ == self@.assignment[at as int].0 && partition
                == self@.assignment[at as int].1 && offset == self@.positions[at as int]
                && member_id@ == self@.member_id && generation == self@.generation,
    {
        Connection::commit_offset(
            self.group.as_str(),
            self.assignment[at].0.as_str(),
            self.assignment[at].1,
            self.positions[at],
            self.member_id.as_str(),
            self.generation,
        )
    }

    pub fn assignment(&self) -> (r: &Vec<(String, u32)>)
        ensures
            slots(r@) == self@.assignment,
    {
        &self.assignment
    }

    pub fn member_id(&self) -> (r: &str)
        ensures
            r@ == self@.member_id,
    {
        self.member_id.as_str()
    }

    pub fn generation(&self) -> (r: u64)
        ensures
            r == self@.generation,
    {
        self.generation
    }
}

} // verus!
