//! What a client is answered, once the partition's writer or the controller
//! has spoken.

use super::cluster::{fetched_views, to_fetched};
use super::offsets::record_views;
use super::partition::{AppendResult, ReadOk};
use crate::client::ClientError;
use crate::proto::{ErrorCode, FetchedRecord, Response};
use crate::storage::record::{Record, RecordView};
use vstd::prelude::*;

verus! {

/// What a long-polling fetch does next.
pub enum FetchTurn {
    /// Wait until there is more, or the wait is over, and read again.
    Wait,
    Answer(Response),
}

/// An answer to a consumer's fetch.
pub open spec fn fetch_says(
    r: Response,
    error: ErrorCode,
    log_start: u64,
    next_offset: u64,
    records: Seq<RecordView>,
) -> bool {
    r matches Response::Fetch { error: e, log_start: s, next_offset: n, records: rs } && e == error
        && s == log_start && n == next_offset && fetched_views(rs@) == records
}

/// How a read is answered.
pub open spec fn read_answered(read: std::result::Result<ReadOk, ErrorCode>, r: Response) -> bool {
    match read {
        Ok(ok) => fetch_says(
            r,
            ErrorCode::NoError,
            ok.log_start,
            ok.next_offset,
            record_views(ok.records@),
        ),
        Err(error) => fetch_says(r, error, 0, 0, Seq::empty()),
    }
}

/// Whether a read found nothing.
pub open spec fn nothing_read(read: std::result::Result<ReadOk, ErrorCode>) -> bool {
    read matches Ok(ok) && ok.records@.len() == 0
}

fn no_records() -> (r: Vec<FetchedRecord>)
    ensures
        r@.len() == 0,
        fetched_views(r@) == Seq::<RecordView>::empty(),
{
    let r: Vec<FetchedRecord> = Vec::new();
    assert(fetched_views(r@) =~= Seq::empty());
    r
}

/// Decides on a read for a consumer of a broker on its own: an empty one waits,
/// as long as it may.
pub fn fetch_turn(read: std::result::Result<ReadOk, ErrorCode>, may_wait: bool) -> (turn: FetchTurn)
    ensures
        if nothing_read(read) && may_wait {
            turn is Wait
        } else {
            turn matches FetchTurn::Answer(r) && read_answered(read, r)
        },
        turn is Wait <==> may_wait && (read matches Ok(ok) && ok.records@.len() == 0),
{
    match read {
        Ok(ok) => {
            if ok.records.len() == 0 && may_wait {
                return FetchTurn::Wait;
            }
            FetchTurn::Answer(
                Response::Fetch {
                    error: ErrorCode::NoError,
                    log_start: ok.log_start,
                    next_offset: ok.next_offset,
                    records: to_fetched(ok.records),
                },
            )
        },
        Err(error) => FetchTurn::Answer(
            Response::Fetch { error, log_start: 0, next_offset: 0, records: no_records() },
        ),
    }
}

/// What a fetch on a replicated partition does next.
pub enum CommittedTurn {
    /// Read, and answer up to the high-water mark.
    Read,
    /// Wait until the high-water mark passes the offset, or the wait is over.
    Wait,
    Answer(Response),
}

/// Decides on a consumer's fetch at `offset` of a replicated partition: it is
/// bounded by the high-water mark. Records past the HWM exist but are not yet
/// replication-committed; handing them out would let a consumer see data a
/// failover can erase.
pub fn committed_turn(offset: u64, high_watermark: u64, log_end: u64, may_wait: bool) -> (turn:
    CommittedTurn)
    ensures
        if offset > log_end {
            turn matches CommittedTurn::Answer(r) && fetch_says(
                r,
                ErrorCode::OffsetOutOfRange,
                0,
                high_watermark,
                Seq::empty(),
            )
        } else if offset < high_watermark {
            turn is Read
        } else if may_wait {
            turn is Wait
        } else {
            turn matches CommittedTurn::Answer(r) && fetch_says(
                r,
                ErrorCode::NoError,
                0,
                high_watermark,
                Seq::empty(),
            )
        },
        turn is Read <==> offset < high_watermark && offset <= log_end,
        turn is Wait <==> may_wait && high_watermark <= offset <= log_end,
        turn matches CommittedTurn::Answer(r) ==> r is Fetch && r->Fetch_records@.len() == 0
            && r->Fetch_next_offset == high_watermark && r->Fetch_error == (if offset > log_end {
            ErrorCode::OffsetOutOfRange
        } else {
            ErrorCode::NoError
        }),
{
    if offset > log_end {
        CommittedTurn::Answer(
            Response::Fetch {
                error: ErrorCode::OffsetOutOfRange,
                log_start: 0,
                next_offset: high_watermark,
                records: no_records(),
            },
        )
    } else if offset < high_watermark {
        CommittedTurn::Read
    } else if may_wait {
        CommittedTurn::Wait
    } else {
        CommittedTurn::Answer(
            Response::Fetch {
                error: ErrorCode::NoError,
                log_start: 0,
                next_offset: high_watermark,
                records: no_records(),
            },
        )
    }
}

/// The records at the front that lie below an offset.
pub open spec fn below(rs: Seq<RecordView>, end: u64) -> Seq<RecordView>
    decreases rs.len(),
{
    if rs.len() > 0 && rs[0].offset < end {
        seq![rs[0]] + below(rs.skip(1), end)
    } else {
        Seq::empty()
    }
}

pub proof fn lemma_below(rs: Seq<RecordView>, end: u64, k: int)
    requires
        0 <= k <= rs.len(),
        forall|i: int| 0 <= i < k ==> (#[trigger] rs[i]).offset < end,
        k < rs.len() ==> rs[k].offset >= end,
    ensures
        below(rs, end) == rs.take(k),
    decreases rs.len(),
{
    if k > 0 {
        assert(rs[0].offset < end);
        let rest = rs.skip(1);
        assert forall|i: int| 0 <= i < k - 1 implies (#[trigger] rest[i]).offset < end by {
            assert(rest[i] == rs[i + 1]);
        }
        lemma_below(rest, end, k - 1);
        assert(seq![rs[0]] + rest.take(k - 1) =~= rs.take(k));
    } else {
        assert(rs.take(0) =~= Seq::empty());
    }
}

/// Answers a consumer's fetch on a replicated partition from what was read.
pub fn committed_answer(read: std::result::Result<ReadOk, ErrorCode>, high_watermark: u64) -> (r:
    Response)
    ensures
        match read {
            Ok(ok) => fetch_says(
                r,
                ErrorCode::NoError,
                ok.log_start,
                high_watermark,
                below(record_views(ok.records@), high_watermark),
            ),
            Err(error) => fetch_says(r, error, 0, high_watermark, Seq::empty()),
        },
{
    match read {
        Ok(ok) => {
            let log_start: u64 = ok.log_start;
            let mut records: Vec<Record> = ok.records;
            let ghost rs = record_views(records@);
            let mut k: usize = 0;
            while k < records.len() && records[k].offset < high_watermark
                invariant
                    k <= records@.len(),
                    rs == record_views(records@),
                    forall|i: int| 0 <= i < k ==> (#[trigger] rs[i]).offset < high_watermark,
                decreases records@.len() - k,
            {
                k += 1;
            }
            proof {
                if k < records@.len() {
                    assert(rs[k as int].offset == records@[k as int].offset);
                }
                lemma_below(rs, high_watermark, k as int);
            }
            records.truncate(k);
            assert(record_views(records@) =~= rs.take(k as int));
            Response::Fetch {
                error: ErrorCode::NoError,
                log_start,
                next_offset: high_watermark,
                records: to_fetched(records),
            }
        },
        Err(error) => Response::Fetch {
            error,
            log_start: 0,
            next_offset: high_watermark,
            records: no_records(),
        },
    }
}

/// A consumer is handed nothing at or past the high-water mark: no record that
/// a failover can erase.
pub proof fn law_only_committed(rs: Seq<RecordView>, high_watermark: u64, i: int)
    requires
        0 <= i < below(rs, high_watermark).len(),
    ensures
        below(rs, high_watermark)[i].offset < high_watermark,
        i < rs.len(),
        below(rs, high_watermark)[i] == rs[i],
    decreases rs.len(),
{
    if rs.len() > 0 && rs[0].offset < high_watermark && i > 0 {
        law_only_committed(rs.skip(1), high_watermark, i - 1);
    }
}

/// An answer to a follower's fetch.
pub open spec fn replica_says(
    r: Response,
    error: ErrorCode,
    leader_epoch: u64,
    log_end: u64,
    high_watermark: u64,
    records: Seq<RecordView>,
) -> bool {
    r matches Response::ReplicaFetch {
        error: e,
        leader_epoch: l,
        log_end: n,
        high_watermark: h,
        records: rs,
    } && e == error && l == leader_epoch && n == log_end && h == high_watermark && fetched_views(rs@)
        == records
}

/// Decides on a read for a follower: it reaches to the log end (past the HWM —
/// replication is how records BECOME committed), and an empty one waits, as
/// long as it may.
pub fn replica_turn(
    read: std::result::Result<ReadOk, ErrorCode>,
    may_wait: bool,
    leader_epoch: u64,
    high_watermark: u64,
) -> (turn: FetchTurn)
    ensures
        if nothing_read(read) && may_wait {
            turn is Wait
        } else {
            turn matches FetchTurn::Answer(r) && match read {
                Ok(ok) => replica_says(
                    r,
                    ErrorCode::NoError,
                    leader_epoch,
                    ok.next_offset,
                    high_watermark,
                    record_views(ok.records@),
                ),
                Err(error) => replica_says(r, error, leader_epoch, 0, 0, Seq::empty()),
            }
        },
        turn is Wait <==> may_wait && (read matches Ok(ok) && ok.records@.len() == 0),
{
    match read {
        Ok(ok) => {
            if ok.records.len() == 0 && may_wait {
                return FetchTurn::Wait;
            }
            FetchTurn::Answer(
                Response::ReplicaFetch {
                    error: ErrorCode::NoError,
                    leader_epoch,
                    log_end: ok.next_offset,
                    high_watermark,
                    records: to_fetched(ok.records),
                },
            )
        },
        Err(error) => FetchTurn::Answer(
            Response::ReplicaFetch {
                error,
                leader_epoch,
                log_end: 0,
                high_watermark: 0,
                records: no_records(),
            },
        ),
    }
}

/// How a produce is answered once its fate is known.
pub open spec fn produced(result: AppendResult) -> Response {
    match result {
        Ok((base_offset, count)) => Response::Produce {
            error: ErrorCode::NoError,
            base_offset,
            count,
        },
        Err(error) => Response::Produce { error, base_offset: 0, count: 0 },
    }
}

/// Answers a produce.
pub fn produce_response(result: AppendResult) -> (r: Response)
    ensures
        r == produced(result),
{
    match result {
        Ok(done) => {
            let (base_offset, count): (u64, u32) = done;
            Response::Produce { error: ErrorCode::NoError, base_offset, count }
        },
        Err(error) => Response::Produce { error, base_offset: 0, count: 0 },
    }
}

/// What an acks=all produce does once the writer has appended it.
pub enum AllTurn {
    /// Park it until the high-water mark covers it.
    Park { base_offset: u64, count: u32 },
    Answer(Response),
}

/// Decides on an acks=all produce: it is parked, unless it failed or is empty.
pub fn all_turn(result: AppendResult) -> (turn: AllTurn)
    ensures
        turn == (match result {
            Ok((base_offset, count)) => if count > 0 {
                AllTurn::Park { base_offset, count }
            } else {
                AllTurn::Answer(produced(result))
            },
            Err(_) => AllTurn::Answer(produced(result)),
        }),
        turn is Park <==> (result matches Ok((_, count)) && count > 0),
{
    match result {
        Ok(done) => {
            let (base_offset, count): (u64, u32) = done;
            if count > 0 {
                AllTurn::Park { base_offset, count }
            } else {
                AllTurn::Answer(produce_response(Ok((base_offset, count))))
            }
        },
        Err(error) => AllTurn::Answer(produce_response(Err(error))),
    }
}

/// How long an acks=all produce is parked, at most.
pub const ALL_TIMEOUT_MS: u64 = 15_000;

/// Answers a parked produce. Without an outcome — dropped or timed out — the
/// replication never covered it.
pub fn parked_response(outcome: Option<AppendResult>) -> (r: Response)
    ensures
        r == (match outcome {
            Some(result) => produced(result),
            None => produced(Err(ErrorCode::NotEnoughReplicas)),
        }),
        r is Produce,
        outcome is None ==> r->Produce_error == ErrorCode::NotEnoughReplicas,
        outcome matches Some(Ok((base, count))) ==> r->Produce_error == ErrorCode::NoError
            && r->Produce_base_offset == base && r->Produce_count == count,
        outcome matches Some(Err(code)) ==> r->Produce_error == code,
{
    match outcome {
        Some(result) => produce_response(result),
        None => produce_response(Err(ErrorCode::NotEnoughReplicas)),
    }
}

/// Answers a commit, once its record is in the offsets log or could not be put
/// there.
pub fn commit_response(result: AppendResult) -> (r: Response)
    ensures
        r == (Response::CommitOffset {
            error: match result {
                Ok(_) => ErrorCode::NoError,
                Err(error) => error,
            },
        }),
{
    match result {
        Ok(_) => Response::CommitOffset { error: ErrorCode::NoError },
        Err(error) => Response::CommitOffset { error },
    }
}

/// Answers an epoch check, once the writer has said where the epoch ends.
pub fn epoch_response(end: std::result::Result<u64, ErrorCode>) -> (r: Response)
    ensures
        r == (match end {
            Ok(end_offset) => Response::EpochCheck { error: ErrorCode::NoError, end_offset },
            Err(error) => Response::EpochCheck { error, end_offset: 0 },
        }),
{
    match end {
        Ok(end_offset) => Response::EpochCheck { error: ErrorCode::NoError, end_offset },
        Err(error) => Response::EpochCheck { error, end_offset: 0 },
    }
}

/// Answers the creation of a topic in a cluster with what the controller said;
/// with an error of storage where it could not be asked, or said something
/// else.
pub fn created_response(reply: Option<std::result::Result<Response, ClientError>>) -> (r: Response)
    ensures
        r == (match reply {
            Some(Ok(Response::CreateTopic { error })) => Response::CreateTopic { error },
            _ => Response::CreateTopic { error: ErrorCode::Storage },
        }),
{
    match reply {
        Some(Ok(Response::CreateTopic { error })) => Response::CreateTopic { error },
        _ => Response::CreateTopic { error: ErrorCode::Storage },
    }
}

} // verus!
