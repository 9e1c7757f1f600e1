//! Client side: what a request is, what its response means, and when to try
//! again.
//!
//! `Connection` routes responses back to callers by correlation ID, so any
//! number of requests can be in flight on one socket — the broker may answer
//! them out of order (long-poll fetches) and each still lands with its caller.

pub mod cluster;
pub mod group;
pub mod laws;
pub mod producer;

pub use cluster::ClusterClient;
pub use group::GroupConsumer;
pub use producer::{partition_for_key, Producer, TopicProducer};

use crate::proto::request::{request_tag, request_vals};
use crate::proto::schema::{texts_fit, Fault};
use crate::proto::{
    encode_request, error_text, frame, Acks, ClusterMeta, ErrorCode, FetchedRecord, ProduceRecord,
    ProtoError, Request, Response,
};
use std::collections::HashMap;
use vstd::prelude::*;
use vstd::std_specs::hash::*;
use vstd::string::*;

verus! {

/// Why a call failed.
#[derive(Debug)]
pub enum ClientError {
    /// What the system said of a failed read, write or connect.
    Io(String),
    Closed,
    Proto(ProtoError),
    Broker(ErrorCode),
    UnexpectedResponse,
}

pub type Result<T> = std::result::Result<T, ClientError>;

/// A client error, its texts as characters.
pub ghost enum CallFault {
    Io(Seq<char>),
    Closed,
    Proto(Fault),
    Broker(ErrorCode),
    UnexpectedResponse,
}

impl View for ClientError {
    type V = CallFault;

    open spec fn view(&self) -> CallFault {
        match *self {
            ClientError::Io(text) => CallFault::Io(text@),
            ClientError::Closed => CallFault::Closed,
            ClientError::Proto(e) => CallFault::Proto(e@),
            ClientError::Broker(code) => CallFault::Broker(code),
            ClientError::UnexpectedResponse => CallFault::UnexpectedResponse,
        }
    }
}

/// The text that describes a client error.
pub open spec fn client_error_text(f: CallFault) -> Seq<char> {
    match f {
        CallFault::Io(text) => "io: "@ + text,
        CallFault::Closed => "connection closed"@,
        CallFault::Proto(e) => "protocol: "@ + error_text(e),
        CallFault::Broker(code) => "broker error: "@ + code.label(),
        CallFault::UnexpectedResponse => "unexpected response type"@,
    }
}

impl ClientError {
    /// The text that describes this error.
    pub fn message(&self) -> (text: String)
        ensures
            text@ == client_error_text(self@),
    {
        match self {
            ClientError::Io(detail) => {
                let mut text: String = "io: ".to_owned();
                text.append(detail.as_str());
                text
            },
            ClientError::Closed => "connection closed".to_owned(),
            ClientError::Proto(e) => {
                let mut text: String = "protocol: ".to_owned();
                text.append(e.message().as_str());
                text
            },
            ClientError::Broker(code) => {
                let mut text: String = "broker error: ".to_owned();
                text.append(code.name());
                text
            },
            ClientError::UnexpectedResponse => "unexpected response type".to_owned(),
        }
    }
}

/// The requests in flight on a connection, each with the ticket of whoever
/// waits for its response.
pub struct Connection {
    next_corr: u32,
    pending: HashMap<u32, u64>,
    closed: bool,
}

pub ghost struct InFlight {
    pub next: u32,
    pub pending: Map<u32, u64>,
    pub closed: bool,
}

impl View for Connection {
    type V = InFlight;

    closed spec fn view(&self) -> InFlight {
        InFlight { next: self.next_corr, pending: self.pending@, closed: self.closed }
    }
}

/// A connection with one call more in flight. One that has died takes none.
pub open spec fn started(c: InFlight, ticket: u64) -> InFlight {
    if c.closed {
        c
    } else {
        InFlight {
            next: c.next.wrapping_add(1),
            pending: c.pending.insert(c.next, ticket),
            closed: false,
        }
    }
}

/// A connection that has died.
pub open spec fn dead(c: InFlight) -> InFlight {
    InFlight { next: c.next, pending: Map::empty(), closed: true }
}

impl Connection {
    pub fn new() -> (r: Self)
        ensures
            r@ == (InFlight { next: 1, pending: Map::empty(), closed: false }),
    {
        Connection { next_corr: 1, pending: HashMap::new(), closed: false }
    }

    /// The frame of a request whose response `ticket` waits for; lets callers
    /// pipeline before they wait. On a connection that has died a call fails at
    /// once: nothing would ever complete it.
    pub fn call_start(&mut self, req: &Request, ticket: u64) -> (sent: Result<Vec<u8>>)
        requires
            texts_fit(request_vals(*req)),
        ensures
            final(self)@ == started(old(self)@, ticket),
            if old(self)@.closed {
                sent is Err && sent->Err_0@ == CallFault::Closed
            } else {
                sent is Ok && sent->Ok_0@ == frame(
                    request_tag(*req),
                    old(self)@.next,
                    request_vals(*req),
                )
            },
    {
        broadcast use group_hash_axioms;

        if self.closed {
            return Err(ClientError::Closed);
        }
        let corr: u32 = self.next_corr;
        self.next_corr = corr.wrapping_add(1);
        self.pending.insert(corr, ticket);
        Ok(encode_request(req, corr))
    }

    /// The frame of a request that no response is expected to (acks=0 produces).
    pub fn send_only(&mut self, req: &Request) -> (sent: Vec<u8>)
        requires
            texts_fit(request_vals(*req)),
        ensures
            final(self)@ == (InFlight { next: old(self)@.next.wrapping_add(1), ..old(self)@ }),
            sent@ == frame(request_tag(*req), old(self)@.next, request_vals(*req)),
    {
        let corr: u32 = self.next_corr;
        self.next_corr = corr.wrapping_add(1);
        encode_request(req, corr)
    }

    /// The ticket that a response belongs to; a response that nobody waits for
    /// is dropped.
    pub fn deliver(&mut self, corr: u32) -> (r: Option<u64>)
        ensures
            r == (if old(self)@.pending.contains_key(corr) {
                Some(old(self)@.pending[corr])
            } else {
                None
            }),
            final(self)@ == (InFlight { pending: old(self)@.pending.remove(corr), ..old(self)@ }),
    {
        broadcast use group_hash_axioms;

        let ghost before = self.pending@;
        let r: Option<u64> = self.pending.remove(&corr);
        proof {
            assert(self.pending@ =~= before.remove(corr));
        }
        r
    }

    /// Ends every call in flight, and every one to come: none gets a response any
    /// more.
    pub fn close(&mut self)
        ensures
            final(self)@ == dead(old(self)@),
    {
        self.pending.clear();
        self.closed = true;
    }
}

/// Every response lands with its caller: whatever else was sent and answered in
/// between, as long as its correlation ID is not used again.
pub proof fn law_response_lands(c: InFlight, ticket: u64, other: u32)
    requires
        !c.closed,
        other != c.next,
    ensures
        started(c, ticket).pending.remove(other)[c.next] == ticket,
        started(c, ticket).pending.remove(other).contains_key(c.next),
        !started(c, ticket).pending.remove(c.next).contains_key(c.next),
{
}

/// Nothing waits on a connection that has died, and neither a call nor a late
/// response brings it back.
pub proof fn law_dead_parks_nothing(c: InFlight, ticket: u64, corr: u32)
    ensures
        started(dead(c), ticket) == dead(c),
        (InFlight { pending: dead(c).pending.remove(corr), ..dead(c) }) == dead(c),
        !dead(c).pending.contains_key(corr),
{
    assert(dead(c).pending.remove(corr) =~= dead(c).pending);
}

/// A response of another type than the request's.
pub open spec fn unexpected<T>(r: Result<T>) -> bool {
    r is Err && r->Err_0@ == CallFault::UnexpectedResponse
}

/// A response that tells of an error.
pub open spec fn failed<T>(r: Result<T>, error: ErrorCode) -> bool {
    r is Err && r->Err_0@ == CallFault::Broker(error)
}

impl Connection {
    pub fn create_topic(topic: &str, partitions: u32, replication_factor: u32) -> (r: Request)
        ensures
            r matches Request::CreateTopic {
                topic: t,
                partitions: p,
                replication_factor: f,
            } && t@ == topic@ && p == partitions && f == replication_factor,
    {
        Request::CreateTopic { topic: topic.to_owned(), partitions, replication_factor }
    }

    /// What the answer to a topic's creation means.
    pub fn topic_created(resp: Response) -> (r: Result<()>)
        ensures
            match resp {
                Response::CreateTopic { error } => if error == ErrorCode::NoError {
                    r is Ok
                } else {
                    failed(r, error)
                },
                _ => unexpected(r),
            },
    {
        match resp {
            Response::CreateTopic { error } => {
                if error == ErrorCode::NoError {
                    Ok(())
                } else {
                    Err(ClientError::Broker(error))
                }
            },
            _ => Err(ClientError::UnexpectedResponse),
        }
    }

    /// The metadata in a broker's answer.
    pub fn metadata(resp: Response) -> (r: Result<ClusterMeta>)
        ensures
            match resp {
                Response::Metadata { error, cluster } => if error == ErrorCode::NoError {
                    r == Ok::<ClusterMeta, ClientError>(cluster)
                } else {
                    failed(r, error)
                },
                _ => unexpected(r),
            },
    {
        match resp {
            Response::Metadata { error, cluster } => {
                if error == ErrorCode::NoError {
                    Ok(cluster)
                } else {
                    Err(ClientError::Broker(error))
                }
            },
            _ => Err(ClientError::UnexpectedResponse),
        }
    }

    /// The metadata in a controller's answer.
    pub fn controller_metadata(resp: Response) -> (r: Result<ClusterMeta>)
        ensures
            match resp {
                Response::ControllerMetadata { error, cluster } => if error == ErrorCode::NoError {
                    r == Ok::<ClusterMeta, ClientError>(cluster)
                } else {
                    failed(r, error)
                },
                _ => unexpected(r),
            },
    {
        match resp {
            Response::ControllerMetadata { error, cluster } => {
                if error == ErrorCode::NoError {
                    Ok(cluster)
                } else {
                    Err(ClientError::Broker(error))
                }
            },
            _ => Err(ClientError::UnexpectedResponse),
        }
    }

    /// A produce in a leader epoch; 0 stands for any.
    pub fn produce(
        topic: &str,
        partition: u32,
        acks: Acks,
        leader_epoch: u64,
        records: Vec<ProduceRecord>,
    ) -> (r: Request)
        ensures
            r matches Request::Produce {
                topic: t,
                partition: p,
                acks: a,
                leader_epoch: e,
                records: rs,
            } && t@ == topic@ && p == partition && a == acks && e == leader_epoch && rs == records,
    {
        Request::Produce { topic: topic.to_owned(), partition, acks, leader_epoch, records }
    }

    /// The base offset in the answer to a produce.
    pub fn produced(resp: Response) -> (r: Result<u64>)
        ensures
            match resp {
                Response::Produce { error, base_offset, .. } => if error == ErrorCode::NoError {
                    r == Ok::<u64, ClientError>(base_offset)
                } else {
                    failed(r, error)
                },
                _ => unexpected(r),
            },
    {
        match resp {
            Response::Produce { error, base_offset, .. } => {
                if error == ErrorCode::NoError {
                    Ok(base_offset)
                } else {
                    Err(ClientError::Broker(error))
                }
            },
            _ => Err(ClientError::UnexpectedResponse),
        }
    }

    pub fn fetch(topic: &str, partition: u32, offset: u64, max_bytes: u32, max_wait_ms: u32) -> (r:
        Request)
        ensures
            r matches Request::Fetch {
                topic: t,
                partition: p,
                offset: o,
                max_bytes: b,
                max_wait_ms: w,
            } && t@ == topic@ && p == partition && o == offset && b == max_bytes && w
                == max_wait_ms,
    {
        Request::Fetch { topic: topic.to_owned(), partition, offset, max_bytes, max_wait_ms }
    }

    /// (log_start, next_offset, records) in the answer to a fetch.
    pub fn fetched(resp: Response) -> (r: Result<(u64, u64, Vec<FetchedRecord>)>)
        ensures
            match resp {
                Response::Fetch { error, log_start, next_offset, records } => if error
                    == ErrorCode::NoError {
                    r == Ok::<(u64, u64, Vec<FetchedRecord>), ClientError>(
                        (log_start, next_offset, records),
                    )
                } else {
                    failed(r, error)
                },
                _ => unexpected(r),
            },
    {
        match resp {
            Response::Fetch { error, log_start, next_offset, records } => {
                if error == ErrorCode::NoError {
                    Ok((log_start, next_offset, records))
                } else {
                    Err(ClientError::Broker(error))
                }
            },
            _ => Err(ClientError::UnexpectedResponse),
        }
    }

    /// A commit, fenced by the member's generation; one without a member is not
    /// fenced.
    pub fn commit_offset(
        group: &str,
        topic: &str,
        partition: u32,
        offset: u64,
        member_id: &str,
        generation: u64,
    ) -> (r: Request)
        ensures
            r matches Request::CommitOffset {
                group: g,
                topic: t,
                partition: p,
                offset: o,
                member_id: m,
                generation: n,
            } && g@ == group@ && t@ == topic@ && p == partition && o == offset && m@ == member_id@
                && n == generation,
    {
        Request::CommitOffset {
            group: group.to_owned(),
            topic: topic.to_owned(),
            partition,
            offset,
            member_id: member_id.to_owned(),
            generation,
        }
    }

    /// What the answer to a commit means.
    pub fn committed(resp: Response) -> (r: Result<()>)
        ensures
            match resp {
                Response::CommitOffset { error } => if error == ErrorCode::NoError {
                    r is Ok
                } else {
                    failed(r, error)
                },
                _ => unexpected(r),
            },
    {
        match resp {
            Response::CommitOffset { error } => {
                if error == ErrorCode::NoError {
                    Ok(())
                } else {
                    Err(ClientError::Broker(error))
                }
            },
            _ => Err(ClientError::UnexpectedResponse),
        }
    }

    pub fn fetch_offset(group: &str, topic: &str, partition: u32) -> (r: Request)
        ensures
            r matches Request::FetchOffset { group: g, topic: t, partition: p } && g@ == group@ && t@
                == topic@ && p == partition,
    {
        Request::FetchOffset { group: group.to_owned(), topic: topic.to_owned(), partition }
    }

    /// The committed offset in the answer; `None` where none was committed.
    pub fn offset_fetched(resp: Response) -> (r: Result<Option<u64>>)
        ensures
            match resp {
                Response::FetchOffset { error, offset } => if error == ErrorCode::NoError {
                    r == Ok::<Option<u64>, ClientError>(
                        if offset >= 0 {
                            Some(offset as u64)
                        } else {
                            None
                        },
                    )
                } else {
                    failed(r, error)
                },
                _ => unexpected(r),
            },
    {
        match resp {
            Response::FetchOffset { error, offset } => {
                if error == ErrorCode::NoError {
                    if offset >= 0 {
                        Ok(Some(offset as u64))
                    } else {
                        Ok(None)
                    }
                } else {
                    Err(ClientError::Broker(error))
                }
            },
            _ => Err(ClientError::UnexpectedResponse),
        }
    }
}

/// A single-partition consumer tracking its own position, with optional
/// group-named commit/resume. (Group *membership* — coordinated assignment,
/// rebalancing — is `GroupConsumer`'s; here a group is only a name to store
/// offsets by.)
pub struct Consumer {
    pub topic: String,
    pub partition: u32,
    pub group: Option<String>,
    pub position: u64,
    pub max_bytes: u32,
    pub max_wait_ms: u32,
}

/// Where a reader goes on after these records.
pub open spec fn position_after(position: u64, records: Seq<FetchedRecord>) -> u64 {
    if records.len() == 0 {
        position
    } else {
        (records.last().offset + 1) as u64
    }
}

/// Where a reader that started at `start` goes on after polls, one after the
/// other.
pub open spec fn position_after_all(start: u64, polls: Seq<Seq<FetchedRecord>>) -> u64
    decreases polls.len(),
{
    if polls.len() == 0 {
        start
    } else {
        position_after(position_after_all(start, polls.drop_last()), polls.last())
    }
}

/// Each poll brought the records from the reader's position on, one offset after
/// the other.
pub open spec fn brought_in_order(start: u64, polls: Seq<Seq<FetchedRecord>>) -> bool
    decreases polls.len(),
{
    polls.len() > 0 ==> {
        &&& brought_in_order(start, polls.drop_last())
        &&& forall|i: int|
            0 <= i < polls.last().len() ==> (#[trigger] polls.last()[i]).offset
                == position_after_all(start, polls.drop_last()) + i
    }
}

/// Whether one of the polls brought an offset.
pub open spec fn brought(polls: Seq<Seq<FetchedRecord>>, offset: u64) -> bool {
    exists|k: int, i: int|
        0 <= k < polls.len() && 0 <= i < polls[k].len() && (#[trigger] polls[k][i]).offset == offset
}

/// Nothing is passed over: every offset from where a reader started up to its
/// position, which is what it commits, was brought to it. Whoever goes on from
/// that commit starts right behind.
pub proof fn law_nothing_skipped(start: u64, polls: Seq<Seq<FetchedRecord>>, offset: u64)
    requires
        brought_in_order(start, polls),
        start <= offset < position_after_all(start, polls),
        forall|k: int|
            0 <= k < polls.len() && (#[trigger] polls[k]).len() > 0 ==> polls[k].last().offset
                < u64::MAX,
    ensures
        brought(polls, offset),
    decreases polls.len(),
{
    if polls.len() > 0 {
        let head = polls.drop_last();
        let before = position_after_all(start, head);
        let n = polls.len() - 1;
        if offset < before {
            assert forall|k: int| 0 <= k < head.len() && (#[trigger] head[k]).len()
                > 0 implies head[k].last().offset < u64::MAX by {
                assert(head[k] == polls[k]);
            }
            law_nothing_skipped(start, head, offset);
            let (k, i) = choose|k: int, i: int|
                0 <= k < head.len() && 0 <= i < head[k].len() && (#[trigger] head[k][i]).offset
                    == offset;
            assert(polls[k][i].offset == offset);
        } else {
            assert(polls[n] == polls.last());
            let i = offset - before;
            assert(polls.last()[polls.last().len() - 1] == polls.last().last());
            assert(polls[n][i].offset == offset);
        }
    }
}

impl Consumer {
    pub fn start_at(topic: String, partition: u32, position: u64) -> (r: Self)
        ensures
            r.topic@ == topic@,
            r.partition == partition,
            r.group is None,
            r.position == position,
            r.max_bytes == 1_048_576,
            r.max_wait_ms == 0,
    {
        Consumer { topic, partition, group: None, position, max_bytes: 1_048_576, max_wait_ms: 0 }
    }

    /// Starts from the group's committed offset (or 0 if none).
    pub fn resume(topic: String, partition: u32, group: String, committed: Option<u64>) -> (r: Self)
        ensures
            r.topic@ == topic@,
            r.partition == partition,
            r.group matches Some(g) && g@ == group@,
            r.position == (match committed {
                Some(o) => o,
                None => 0,
            }),
            r.max_bytes == 1_048_576,
            r.max_wait_ms == 0,
    {
        let position: u64 = match committed {
            Some(o) => o,
            None => 0,
        };
        Consumer {
            topic,
            partition,
            group: Some(group),
            position,
            max_bytes: 1_048_576,
            max_wait_ms: 0,
        }
    }

    /// The next fetch.
    pub fn poll(&self) -> (r: Request)
        ensures
            r matches Request::Fetch { topic, partition, offset, max_bytes, max_wait_ms } && topic@
                == self.topic@ && partition == self.partition && offset == self.position
                && max_bytes == self.max_bytes && max_wait_ms == self.max_wait_ms,
    {
        Connection::fetch(
            self.topic.as_str(),
            self.partition,
            self.position,
            self.max_bytes,
            self.max_wait_ms,
        )
    }

    /// Takes in what a fetch brought, and goes on behind it.
    pub fn polled(&mut self, records: &Vec<FetchedRecord>)
        requires
            records@.len() > 0 ==> records@.last().offset < u64::MAX,
        ensures
            *final(self) == (Consumer {
                position: position_after(old(self).position, records@),
                ..*old(self)
            }),
    {
        if records.len() > 0 {
            self.position = records[records.len() - 1].offset + 1;
        }
    }

    /// The commit of the current position (the next offset to read) under the
    /// group; an error for a consumer without one.
    pub fn commit(&self) -> (r: Result<Request>)
        ensures
            match self.group {
                Some(g) => r matches Ok(Request::CommitOffset {
                    group,
                    topic,
                    partition,
                    offset,
                    member_id,
                    ..
                }) && group@ == g@ && topic@ == self.topic@ && partition == self.partition && offset
                    == self.position && member_id@.len() == 0,
                None => failed(r, ErrorCode::Malformed),
            },
    {
        match &self.group {
            Some(g) => {
                proof {
                    reveal_strlit("");
                }
                Ok(
                    Connection::commit_offset(
                        g.as_str(),
                        self.topic.as_str(),
                        self.partition,
                        self.position,
                        "",
                        0,
                    ),
                )
            },
            None => Err(ClientError::Broker(ErrorCode::Malformed)),
        }
    }

    pub fn position(&self) -> (r: u64)
        ensures
            r == self.position,
    {
        self.position
    }
}

} // verus!
