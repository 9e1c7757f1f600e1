//! One writer per partition, owning its `Log` (single-writer principle).
//!
//! The ack contract lives here: an `Acks::Durable` produce is parked in a
//! pending queue until the covering flush advances `durable_offset` past it.
//! The wait for the next command doubles as the group-commit timer, so a lone
//! record's ack is never stranded waiting for a next append to trip the flush.

use super::cluster::{covered, parked, Pending};
use super::offsets::record_views;
use crate::proto::{opt_view, Acks, ErrorCode, ProduceRecord};
use crate::storage::disk::{all_records, apply_all, files_of, kept, law_offsets, Disk};
use crate::storage::epoch::{
    checkpoint_bytes, end_offset, epoch_appended, epoch_bytes, starting_before, EpochCheckpoint,
};
use crate::storage::image::records;
use crate::storage::log::{
    append_ops, appended, before, elapsed, flushed, log_ok, must_flush, next_of, open_ops, opened,
    ops_view, own_record, read_result, start_of, truncate_ops, truncated, truncation_segment,
    untimed, AppendInfo, FileOp, Log, LogView, Op, MAX_OFFSET,
};
use crate::storage::record::{encoded_size, Record, RecordView};
use crate::storage::scan::total;
use crate::storage::stable::{crashed, law_fsynced_survives, secured};
use crate::storage::{FsyncPolicy, StorageError, StorageFault};
use vstd::prelude::*;

verus! {

pub struct ReadOk {
    pub log_start: u64,
    pub next_offset: u64,
    pub records: Vec<Record>,
}

/// The answer to an append: the base offset and the number of records.
pub type AppendResult = std::result::Result<(u64, u32), ErrorCode>;

/// An answer for whoever holds the ticket.
pub struct Reply {
    pub ticket: u64,
    pub result: AppendResult,
}

/// What a command leads to: the file operations, in order, and the answers to
/// give once they are done.
pub struct Step {
    pub ops: Vec<FileOp>,
    pub replies: Vec<Reply>,
}

/// A partition's log, the history of its leaders' epochs, and the durable
/// produces that wait for a flush.
pub struct Writer {
    log: Log,
    epochs: EpochCheckpoint,
    pending: Vec<Pending>,
    dirty_since_ms: Option<u64>,
    /// How long records may wait for a group commit. The writer alone keeps that
    /// time: two owners of one timer would flush twice.
    max_dirty_ms: Option<u64>,
}

pub ghost struct WriterView {
    pub log: LogView,
    pub epochs: Seq<(u64, u64)>,
    pub pending: Seq<Pending>,
    pub dirty_since: Option<u64>,
    pub max_ms: Option<u64>,
}

impl View for Writer {
    type V = WriterView;

    closed spec fn view(&self) -> WriterView {
        WriterView {
            log: self.log@,
            epochs: self.epochs@,
            pending: self.pending@,
            dirty_since: self.dirty_since_ms,
            max_ms: self.max_dirty_ms,
        }
    }
}

/// The pending produces stand in the order of their offsets, all of them in the
/// log.
pub open spec fn queued(ps: Seq<Pending>, next: nat) -> bool {
    &&& forall|i: int| 0 <= i < ps.len() ==> (#[trigger] ps[i]).last_offset < next
    &&& forall|i: int, j: int|
        0 <= i < j < ps.len() ==> (#[trigger] ps[i]).last_offset <= (#[trigger] ps[j]).last_offset
}

/// Whether the log holds records that no flush has covered.
pub open spec fn is_dirty(v: LogView) -> bool {
    next_of(v) > 0 && v.durable != before(next_of(v))
}

/// Since when the log has been dirty.
pub open spec fn dirty_from(v: LogView, since: Option<u64>, now_ms: u64) -> Option<u64> {
    if !is_dirty(v) {
        None
    } else if since is Some {
        since
    } else {
        Some(now_ms)
    }
}

/// Whether a flush has covered an offset.
pub open spec fn is_durable(durable: Option<u64>, offset: u64) -> bool {
    durable is Some && durable->0 >= offset
}

/// How many of the pending produces, from the front, a flush has covered.
pub open spec fn flushed_count(ps: Seq<Pending>, durable: Option<u64>) -> nat
    decreases ps.len(),
{
    if ps.len() > 0 && is_durable(durable, ps[0].last_offset) {
        1 + flushed_count(ps.skip(1), durable)
    } else {
        0
    }
}

pub open spec fn answer(p: Pending) -> Reply {
    Reply { ticket: p.ticket, result: Ok((p.base_offset, p.count)) }
}

/// The answers to pending produces.
pub open spec fn answers(ps: Seq<Pending>) -> Seq<Reply> {
    ps.map_values(|p: Pending| answer(p))
}

/// The answers to produces that failed.
pub open spec fn failures(ps: Seq<Pending>, code: ErrorCode) -> Seq<Reply> {
    ps.map_values(|p: Pending| Reply { ticket: p.ticket, result: Err(code) })
}

/// How a storage error is answered.
pub open spec fn storage_code(e: StorageFault) -> ErrorCode {
    match e {
        StorageFault::OffsetOutOfRange(_) => ErrorCode::OffsetOutOfRange,
        StorageFault::RecordTooLarge(_) => ErrorCode::Malformed,
        _ => ErrorCode::Storage,
    }
}

pub fn map_storage_err(e: &StorageError) -> (r: ErrorCode)
    ensures
        r == storage_code(e@),
{
    match e {
        StorageError::OffsetOutOfRange(_) => ErrorCode::OffsetOutOfRange,
        StorageError::RecordTooLarge(_) => ErrorCode::Malformed,
        _ => ErrorCode::Storage,
    }
}

/// What became of a batch: the log, the file operations, how many records were
/// appended, and the error that ended it, if one did.
pub ghost struct Batch {
    pub log: LogView,
    pub ops: Seq<Op>,
    pub count: nat,
    pub error: Option<ErrorCode>,
}

/// What a record of a batch becomes in the log.
pub open spec fn as_record(v: LogView, r: ProduceRecord, timestamp_ms: i64) -> RecordView {
    own_record(v, r.key, r.value, timestamp_ms)
}

/// A batch appended record by record, up to the first that fails.
pub open spec fn batch(v: LogView, rs: Seq<ProduceRecord>, timestamp_ms: i64, now_ms: u64) -> Batch
    decreases rs.len(),
{
    if rs.len() == 0 {
        Batch { log: v, ops: Seq::empty(), count: 0, error: None }
    } else {
        let b = batch(v, rs.drop_last(), timestamp_ms, now_ms);
        let r = as_record(b.log, rs.last(), timestamp_ms);
        if b.error is Some {
            b
        } else if encoded_size(r) > b.log.config.max_record_bytes {
            Batch { error: Some(ErrorCode::Malformed), ..b }
        } else {
            Batch {
                log: appended(b.log, r, now_ms),
                ops: b.ops + append_ops(b.log, r, now_ms),
                count: b.count + 1,
                error: None,
            }
        }
    }
}

/// The bytes that a batch takes up in the log.
pub open spec fn batch_size(rs: Seq<ProduceRecord>) -> nat
    decreases rs.len(),
{
    if rs.len() == 0 {
        0
    } else {
        batch_size(rs.drop_last()) + encoded_size(
            RecordView {
                offset: 0,
                timestamp_ms: 0,
                key: opt_view(rs.last().key),
                value: rs.last().value@,
            },
        )
    }
}

/// Whether the log's counters have room for `n` more records of `size` bytes.
pub open spec fn has_room(v: LogView, n: nat, size: nat) -> bool {
    &&& next_of(v) + n <= MAX_OFFSET
    &&& size <= usize::MAX
    &&& v.dirty + size <= u64::MAX
}

/// Whether an append is acknowledged at once.
pub open spec fn acked_now(v: LogView, acks: Acks) -> bool {
    match acks {
        Acks::NoAck => true,
        Acks::Written => true,
        Acks::All => true,
        Acks::Durable => v.config.fsync is Os || is_durable(
            v.durable,
            (next_of(v) - 1) as u64,
        ),
    }
}

/// A pending queue after an append of `b.count` records from `base` on.
pub open spec fn queued_with(
    ps: Seq<Pending>,
    b: Batch,
    base: u64,
    acks: Acks,
    ticket: Option<u64>,
) -> Seq<Pending> {
    match ticket {
        Some(t) => if b.error is None && b.count > 0 && !acked_now(b.log, acks) {
            ps.push(
                Pending {
                    last_offset: (next_of(b.log) - 1) as u64,
                    base_offset: base,
                    count: b.count as u32,
                    ticket: t,
                },
            )
        } else {
            ps
        },
        None => ps,
    }
}

/// The answer that an append gets at once.
pub open spec fn immediate(b: Batch, base: u64, acks: Acks, ticket: Option<u64>) -> Seq<Reply> {
    match ticket {
        Some(t) => match b.error {
            Some(code) => seq![Reply { ticket: t, result: Err(code) }],
            None => if b.count == 0 {
                seq![Reply { ticket: t, result: Ok((next_of(b.log) as u64, 0u32)) }]
            } else if acked_now(b.log, acks) {
                seq![Reply { ticket: t, result: Ok((base, b.count as u32)) }]
            } else {
                Seq::empty()
            },
        },
        None => Seq::empty(),
    }
}

/// A writer after a step that left its log as `log` and its queue as `ps`: what
/// a flush has covered is answered.
pub open spec fn drained(
    w: WriterView,
    log: LogView,
    ps: Seq<Pending>,
    since: Option<u64>,
) -> WriterView {
    WriterView {
        log,
        pending: ps.skip(flushed_count(ps, log.durable) as int),
        dirty_since: since,
        ..w
    }
}

/// The answers that a queue gives out once the log is as durable as that.
pub open spec fn released(log: LogView, ps: Seq<Pending>) -> Seq<Reply> {
    answers(ps.take(flushed_count(ps, log.durable) as int))
}

proof fn lemma_flushed_count(ps: Seq<Pending>, durable: Option<u64>, k: int)
    requires
        0 <= k <= ps.len(),
        forall|i: int| 0 <= i < k ==> is_durable(durable, (#[trigger] ps[i]).last_offset),
        k < ps.len() ==> !is_durable(durable, ps[k].last_offset),
    ensures
        flushed_count(ps, durable) == k,
    decreases ps.len(),
{
    if k > 0 {
        assert(is_durable(durable, ps[0].last_offset));
        let rest = ps.skip(1);
        assert forall|i: int| 0 <= i < k - 1 implies is_durable(
            durable,
            (#[trigger] rest[i]).last_offset,
        ) by {
            assert(rest[i] == ps[i + 1]);
        }
        lemma_flushed_count(rest, durable, k - 1);
    }
}

pub proof fn lemma_flushed_bound(ps: Seq<Pending>, durable: Option<u64>)
    ensures
        flushed_count(ps, durable) <= ps.len(),
        forall|i: int|
            0 <= i < flushed_count(ps, durable) ==> is_durable(
                durable,
                (#[trigger] ps[i]).last_offset,
            ),
        flushed_count(ps, durable) < ps.len() ==> !is_durable(
            durable,
            ps[flushed_count(ps, durable) as int].last_offset,
        ),
    decreases ps.len(),
{
    if ps.len() > 0 && is_durable(durable, ps[0].last_offset) {
        let rest = ps.skip(1);
        lemma_flushed_bound(rest, durable);
        assert forall|i: int| 0 <= i < flushed_count(ps, durable) implies is_durable(
            durable,
            (#[trigger] ps[i]).last_offset,
        ) by {
            if i > 0 {
                assert(ps[i] == rest[i - 1]);
            }
        }
    }
}

pub proof fn lemma_appended_next(v: LogView, r: RecordView, now_ms: u64)
    requires
        v.segments.len() > 0,
    ensures
        next_of(appended(v, r, now_ms)) == next_of(v) + 1,
        appended(v, r, now_ms).dirty <= v.dirty + encoded_size(r),
        appended(v, r, now_ms).config == v.config,
        appended(v, r, now_ms).segments.len() > 0,
{
}

proof fn lemma_batch(v: LogView, rs: Seq<ProduceRecord>, timestamp_ms: i64, now_ms: u64)
    requires
        v.segments.len() > 0,
    ensures
        ({
            let b = batch(v, rs, timestamp_ms, now_ms);
            &&& b.log.segments.len() > 0
            &&& b.log.config == v.config
            &&& next_of(b.log) == next_of(v) + b.count
            &&& b.log.dirty <= v.dirty + batch_size(rs)
            &&& b.count <= rs.len()
            &&& b.error is None ==> b.count == rs.len()
        }),
    decreases rs.len(),
{
    if rs.len() > 0 {
        lemma_batch(v, rs.drop_last(), timestamp_ms, now_ms);
        let b = batch(v, rs.drop_last(), timestamp_ms, now_ms);
        lemma_appended_next(b.log, as_record(b.log, rs.last(), timestamp_ms), now_ms);
    }
}

/// A batch that failed stays as it was, whatever follows.
proof fn lemma_batch_failed(v: LogView, rs: Seq<ProduceRecord>, n: int, timestamp_ms: i64, now_ms: u64)
    requires
        0 <= n <= rs.len(),
        batch(v, rs.take(n), timestamp_ms, now_ms).error is Some,
    ensures
        batch(v, rs, timestamp_ms, now_ms) == batch(v, rs.take(n), timestamp_ms, now_ms),
    decreases rs.len(),
{
    if n < rs.len() {
        assert(rs.drop_last().take(n) =~= rs.take(n));
        lemma_batch_failed(v, rs.drop_last(), n, timestamp_ms, now_ms);
    } else {
        assert(rs.take(n) =~= rs);
    }
}

/// Whether a flush has covered an offset.
fn covers(durable: Option<u64>, offset: u64) -> (r: bool)
    ensures
        r == is_durable(durable, offset),
{
    match durable {
        Some(d) => d >= offset,
        None => false,
    }
}

fn join_ops(ops: &mut Vec<FileOp>, more: Vec<FileOp>)
    ensures
        ops_view(final(ops)@) == ops_view(old(ops)@) + ops_view(more@),
{
    let ghost start = ops@;
    let ghost tail = more@;
    let mut more: Vec<FileOp> = more;
    ops.append(&mut more);
    assert(ops_view(ops@) =~= ops_view(start) + ops_view(tail));
}

impl Writer {
    pub open spec fn ok(self) -> bool {
        &&& self.parts_ok()
        &&& queued(self@.pending, next_of(self@.log))
    }

    pub closed spec fn parts_ok(self) -> bool {
        self.log.ok() && self.epochs.ok()
    }

    /// The writer of a log, which takes over the time of its group commits.
    pub fn new(log: Log, epochs: EpochCheckpoint) -> (r: Writer)
        requires
            log.ok(),
            epochs.ok(),
        ensures
            r.ok(),
            r@ == (WriterView {
                log: untimed(log@),
                epochs: epochs@,
                pending: Seq::empty(),
                dirty_since: None,
                max_ms: match log@.config.fsync {
                    FsyncPolicy::Batch { max_ms, .. } => Some(max_ms),
                    _ => None,
                },
            }),
    {
        let max_dirty_ms: Option<u64> = log.max_dirty_ms();
        let mut log: Log = log;
        log.leave_time();
        Writer { log, epochs, pending: Vec::new(), dirty_since_ms: None, max_dirty_ms }
    }

    pub fn log(&self) -> (r: &Log)
        requires
            self.ok(),
        ensures
            r@ == self@.log,
            r.ok(),
    {
        &self.log
    }

    /// Whether the log has room for a batch.
    pub fn has_room_for(&self, records: &Vec<ProduceRecord>) -> (r: bool)
        requires
            self.ok(),
        ensures
            r == (records@.len() <= u32::MAX && has_room(
                self@.log,
                records@.len(),
                batch_size(records@),
            )),
    {
        let ghost rs = records@;
        let mut size: u64 = 0;
        let mut i: usize = 0;
        assert(rs.take(0) =~= Seq::empty());
        while i < records.len()
            invariant
                i <= records@.len(),
                rs == records@,
                size == batch_size(rs.take(i as int)),
            decreases records@.len() - i,
        {
            proof {
                assert(rs.take(i + 1).drop_last() =~= rs.take(i as int));
                assert(rs.take(i + 1).last() == rs[i as int]);
                lemma_batch_size(rs, i + 1);
            }
            let key_len: usize = match &records[i].key {
                Some(k) => k.len(),
                None => 0,
            };
            let one: u128 = 32 + key_len as u128 + records[i].value.len() as u128;
            let sum: u128 = size as u128 + one;
            if sum > u64::MAX as u128 {
                return false;
            }
            size = sum as u64;
            i += 1;
        }
        assert(rs.take(i as int) =~= rs);
        records.len() as u64 <= u32::MAX as u64 && self.log.has_room(records.len() as u64, size)
    }

    /// Whether the log has room for a leader's records.
    pub fn has_room_for_replicated(&self, records: &Vec<Record>) -> (r: bool)
        requires
            self.ok(),
        ensures
            r == has_room(self@.log, records@.len(), total_size(record_views(records@))),
    {
        let ghost rs = record_views(records@);
        let mut size: u64 = 0;
        let mut i: usize = 0;
        assert(rs.take(0) =~= Seq::empty());
        while i < records.len()
            invariant
                i <= records@.len(),
                rs == record_views(records@),
                size == total_size(rs.take(i as int)),
            decreases records@.len() - i,
        {
            proof {
                assert(rs.take(i + 1).drop_last() =~= rs.take(i as int));
                assert(rs.take(i + 1).last() == rs[i as int]);
                lemma_total_size(rs, i + 1);
            }
            let key_len: usize = match &records[i].key {
                Some(k) => k.len(),
                None => 0,
            };
            let one: u128 = 32 + key_len as u128 + records[i].value.len() as u128;
            let sum: u128 = size as u128 + one;
            if sum > u64::MAX as u128 {
                return false;
            }
            size = sum as u64;
            i += 1;
        }
        assert(rs.take(i as int) =~= rs);
        self.log.has_room(records.len() as u64, size)
    }

    fn dirty(&self) -> (r: bool)
        requires
            self.ok(),
        ensures
            r == is_dirty(self@.log),
    {
        let next: u64 = self.log.next_offset();
        if next == 0 {
            return false;
        }
        match self.log.durable_offset() {
            Some(d) => d != next - 1,
            None => true,
        }
    }

    /// Answers the pending produces that a flush has covered.
    fn drain_pending(&mut self, replies: &mut Vec<Reply>)
        requires
            old(self).ok(),
        ensures
            final(self).ok(),
            final(self)@ == drained(
                old(self)@,
                old(self)@.log,
                old(self)@.pending,
                old(self)@.dirty_since,
            ),
            final(replies)@ == old(replies)@ + released(old(self)@.log, old(self)@.pending),
    {
        let ghost ps = self.pending@;
        let durable: Option<u64> = self.log.durable_offset();
        let ghost before = replies@;
        let mut k: usize = 0;
        assert(before + answers(ps.take(0)) =~= before);
        while k < self.pending.len() && covers(durable, self.pending[k].last_offset)
            invariant
                k <= self.pending@.len(),
                ps == self.pending@,
                self == old(self),
                durable == self@.log.durable,
                forall|i: int| 0 <= i < k ==> is_durable(durable, (#[trigger] ps[i]).last_offset),
                replies@ == before + answers(ps.take(k as int)),
            decreases self.pending@.len() - k,
        {
            let p: Pending = self.pending[k];
            replies.push(Reply { ticket: p.ticket, result: Ok((p.base_offset, p.count)) });
            assert(answers(ps.take(k + 1)) =~= answers(ps.take(k as int)).push(answer(p)));
            assert(replies@ =~= before + answers(ps.take(k + 1)));
            k += 1;
        }
        proof {
            lemma_flushed_count(ps, durable, k as int);
        }
        let rest: Vec<Pending> = self.pending.split_off(k);
        self.pending = rest;
        proof {
            assert(self.pending@ =~= ps.skip(k as int));
            assert forall|i: int| 0 <= i < self.pending@.len() implies (#[trigger] self.pending@[i]).last_offset
                < next_of(self@.log) by {
                assert(self.pending@[i] == ps[k + i]);
            }
            assert forall|i: int, j: int| 0 <= i < j < self.pending@.len() implies (
            #[trigger] self.pending@[i]).last_offset <= (#[trigger] self.pending@[j]).last_offset by {
                assert(self.pending@[i] == ps[k + i] && self.pending@[j] == ps[k + j]);
            }
        }
    }

    /// Appends a batch in this log's own offsets. `ticket` names whoever waits
    /// for the answer; without one there is none.
    #[verifier::rlimit(40)]
    pub fn append(
        &mut self,
        records: Vec<ProduceRecord>,
        acks: Acks,
        ticket: Option<u64>,
        timestamp_ms: i64,
        now_ms: u64,
    ) -> (r: Step)
        requires
            old(self).ok(),
            records@.len() <= u32::MAX,
            has_room(old(self)@.log, records@.len(), batch_size(records@)),
        ensures
            final(self).ok(),
            ({
                let b = batch(old(self)@.log, records@, timestamp_ms, now_ms);
                let base = next_of(old(self)@.log) as u64;
                let ps = queued_with(old(self)@.pending, b, base, acks, ticket);
                let since = dirty_from(b.log, old(self)@.dirty_since, now_ms);
                &&& final(self)@ == drained(old(self)@, b.log, ps, since)
                &&& ops_view(r.ops@) == b.ops
                &&& r.replies@ == immediate(b, base, acks, ticket) + released(b.log, ps)
            }),
    {
        let ghost v = self@.log;
        let ghost rs = records@;
        let ghost start = self@;
        let base: u64 = self.log.next_offset();
        let mut ops: Vec<FileOp> = Vec::new();
        let mut count: u32 = 0;
        let mut error: Option<ErrorCode> = None;
        assert(rs.take(0) =~= Seq::empty());
        assert(ops_view(ops@) =~= Seq::empty());
        for x in it: records
            invariant
                it.seq() == records@,
                rs == records@,
                rs.len() <= u32::MAX,
                v.segments.len() > 0,
                has_room(v, rs.len(), batch_size(rs)),
                self.parts_ok(),
                self@.epochs == start.epochs,
                self@.pending == start.pending,
                self@.dirty_since == start.dirty_since,
                self@.max_ms == start.max_ms,
                ({
                    let b = batch(v, rs.take(it.index()), timestamp_ms, now_ms);
                    &&& self@.log == b.log
                    &&& ops_view(ops@) == b.ops
                    &&& count == b.count
                    &&& error == b.error
                }),
        {
            let ghost n = it.index();
            let ghost part = rs.take(n);
            let ghost more = rs.take(n + 1);
            proof {
                assert(more.drop_last() =~= part);
                assert(more.last() == x);
                lemma_batch(v, part, timestamp_ms, now_ms);
                lemma_batch(v, more, timestamp_ms, now_ms);
                lemma_batch_size(rs, n + 1);
            }
            if error.is_none() {
                match self.log.append(x.key, x.value, timestamp_ms, now_ms) {
                    Ok(done) => {
                        let (_, more_ops): (AppendInfo, Vec<FileOp>) = done;
                        join_ops(&mut ops, more_ops);
                        count += 1;
                    },
                    Err(e) => {
                        error = Some(map_storage_err(&e));
                    },
                }
            }
        }
        assert(rs.take(rs.len() as int) =~= rs);
        let ghost b = batch(v, rs, timestamp_ms, now_ms);
        proof {
            lemma_batch(v, rs, timestamp_ms, now_ms);
        }
        assert(self.ok());
        self.dirty_since_ms = if self.dirty() {
            match self.dirty_since_ms {
                Some(since) => Some(since),
                None => Some(now_ms),
            }
        } else {
            None
        };
        let mut replies: Vec<Reply> = Vec::new();
        let next: u64 = self.log.next_offset();
        if let Some(t) = ticket {
            match error {
                Some(code) => {
                    replies.push(Reply { ticket: t, result: Err(code) });
                },
                None => {
                    if count == 0 {
                        replies.push(Reply { ticket: t, result: Ok((next, 0)) });
                    } else {
                        let last: u64 = next - 1;
                        let now: bool = match acks {
                            Acks::NoAck => true,
                            Acks::Written => true,
                            Acks::All => true,
                            // A broker that never flushes cannot promise
                            // more than "written"; don't strand the ack.
                            Acks::Durable => self.log.never_flushes() || covers(
                                self.log.durable_offset(),
                                last,
                            ),
                        };
                        if now {
                            replies.push(Reply { ticket: t, result: Ok((base, count)) });
                        } else {
                            self.pending.push(
                                Pending { last_offset: last, base_offset: base, count, ticket: t },
                            );
                        }
                    }
                },
            }
        }
        assert(replies@ =~= immediate(b, base, acks, ticket));
        assert(self@.pending =~= queued_with(start.pending, b, base, acks, ticket));
        self.drain_pending(&mut replies);
        Step { ops, replies }
    }
}

proof fn lemma_batch_size(rs: Seq<ProduceRecord>, n: int)
    requires
        0 <= n <= rs.len(),
    ensures
        batch_size(rs.take(n)) <= batch_size(rs),
    decreases rs.len(),
{
    if n < rs.len() {
        assert(rs.drop_last().take(n) =~= rs.take(n));
        lemma_batch_size(rs.drop_last(), n);
    } else {
        assert(rs.take(n) =~= rs);
    }
}

/// How long a writer waits for the next command, at most.
pub const IDLE_WAIT_MS: u64 = 500;

/// How long a writer waits for the next command: to the end of the group commit
/// that is open, if one is, and at least a millisecond.
pub open spec fn wait_of(v: WriterView, now_ms: u64) -> u64 {
    match (v.dirty_since, v.max_ms) {
        (Some(since), Some(max_ms)) => {
            let spent = elapsed(now_ms, since);
            if max_ms - spent >= 1 {
                (max_ms - spent) as u64
            } else {
                1
            }
        },
        _ => IDLE_WAIT_MS,
    }
}

/// Whether the group commit is due.
pub open spec fn flush_due(v: WriterView, now_ms: u64) -> bool {
    match (v.dirty_since, v.max_ms) {
        (Some(since), Some(max_ms)) => elapsed(now_ms, since) >= max_ms,
        _ => false,
    }
}

/// A writer after a flush.
pub open spec fn flush_done(v: WriterView, now_ms: u64) -> WriterView {
    drained(v, flushed(v.log, now_ms), v.pending, None)
}

/// Replicated records appended one by one, up to the first that fails.
pub open spec fn follow(v: LogView, rs: Seq<RecordView>, now_ms: u64) -> Batch
    decreases rs.len(),
{
    if rs.len() == 0 {
        Batch { log: v, ops: Seq::empty(), count: 0, error: None }
    } else {
        let b = follow(v, rs.drop_last(), now_ms);
        let r = rs.last();
        if b.error is Some {
            b
        } else if r.offset != next_of(b.log) {
            Batch { error: Some(ErrorCode::Storage), ..b }
        } else if encoded_size(r) > b.log.config.max_record_bytes {
            Batch { error: Some(ErrorCode::Malformed), ..b }
        } else {
            Batch {
                log: appended(b.log, r, now_ms),
                ops: b.ops + append_ops(b.log, r, now_ms),
                count: b.count + 1,
                error: None,
            }
        }
    }
}

/// The bytes that records take up in the log.
pub open spec fn total_size(rs: Seq<RecordView>) -> nat
    decreases rs.len(),
{
    if rs.len() == 0 {
        0
    } else {
        total_size(rs.drop_last()) + encoded_size(rs.last())
    }
}

proof fn lemma_total_size(rs: Seq<RecordView>, n: int)
    requires
        0 <= n <= rs.len(),
    ensures
        total_size(rs.take(n)) <= total_size(rs),
    decreases rs.len(),
{
    if n < rs.len() {
        assert(rs.drop_last().take(n) =~= rs.take(n));
        lemma_total_size(rs.drop_last(), n);
    } else {
        assert(rs.take(n) =~= rs);
    }
}

proof fn lemma_follow(v: LogView, rs: Seq<RecordView>, now_ms: u64)
    requires
        v.segments.len() > 0,
    ensures
        ({
            let b = follow(v, rs, now_ms);
            &&& b.log.segments.len() > 0
            &&& b.log.config == v.config
            &&& next_of(b.log) == next_of(v) + b.count
            &&& b.log.dirty <= v.dirty + total_size(rs)
            &&& b.count <= rs.len()
        }),
    decreases rs.len(),
{
    if rs.len() > 0 {
        lemma_follow(v, rs.drop_last(), now_ms);
        let b = follow(v, rs.drop_last(), now_ms);
        lemma_appended_next(b.log, rs.last(), now_ms);
    }
}

/// What a truncation leads to: the file operations on the log, the checkpoint
/// to write, if it changes, and the produces that fail.
pub struct Truncation {
    pub ops: Vec<FileOp>,
    pub checkpoint: Option<Vec<u8>>,
    pub replies: Vec<Reply>,
}

impl Writer {
    /// Reads records from `offset` on. `buf` holds the bytes that the log's
    /// `read_span` asks for.
    pub fn read(&self, offset: u64, max_bytes: u64, buf: &[u8]) -> (r: std::result::Result<
        ReadOk,
        ErrorCode,
    >)
        requires
            self.ok(),
            buf@.len() <= u32::MAX,
        ensures
            match read_result(self@.log, offset, max_bytes, buf@) {
                Ok(rs) => r matches Ok(x) && x.log_start == start_of(self@.log) && x.next_offset
                    == next_of(self@.log) && record_views(x.records@) == rs,
                Err(e) => r == Err::<ReadOk, ErrorCode>(storage_code(e)),
            },
    {
        match self.log.read(offset, max_bytes, buf) {
            Ok(records) => {
                assert(record_views(records@) =~= crate::storage::segment::views(records@));
                Ok(
                    ReadOk {
                        log_start: self.log.start_offset(),
                        next_offset: self.log.next_offset(),
                        records,
                    },
                )
            },
            Err(e) => Err(map_storage_err(&e)),
        }
    }

    /// How long to wait for the next command.
    pub fn wait_ms(&self, now_ms: u64) -> (r: u64)
        ensures
            r == wait_of(self@, now_ms),
    {
        match (self.dirty_since_ms, self.max_dirty_ms) {
            (Some(since), Some(max_ms)) => {
                let spent: u64 = if now_ms >= since {
                    now_ms - since
                } else {
                    0
                };
                if max_ms > spent {
                    max_ms - spent
                } else {
                    1
                }
            },
            _ => IDLE_WAIT_MS,
        }
    }

    /// Flushes the log and answers what waited for it.
    pub fn flush(&mut self, now_ms: u64) -> (r: Step)
        requires
            old(self).ok(),
        ensures
            final(self).ok(),
            final(self)@ == flush_done(old(self)@, now_ms),
            ops_view(r.ops@) == seq![Op::Sync { base: old(self)@.log.segments.last().base }],
            r.replies@ == released(flushed(old(self)@.log, now_ms), old(self)@.pending),
    {
        let (_, sync): (Option<u64>, FileOp) = self.log.flush(now_ms);
        self.dirty_since_ms = None;
        let mut ops: Vec<FileOp> = Vec::new();
        ops.push(sync);
        let mut replies: Vec<Reply> = Vec::new();
        self.drain_pending(&mut replies);
        assert(ops_view(ops@) =~= seq![Op::Sync { base: old(self)@.log.segments.last().base }]);
        assert(replies@ =~= released(flushed(old(self)@.log, now_ms), old(self)@.pending));
        Step { ops, replies }
    }

    /// No command came: flushes if the group commit is due.
    pub fn tick(&mut self, now_ms: u64) -> (r: Option<Step>)
        requires
            old(self).ok(),
        ensures
            final(self).ok(),
            if flush_due(old(self)@, now_ms) {
                &&& final(self)@ == flush_done(old(self)@, now_ms)
                &&& r matches Some(step) && ops_view(step.ops@) == seq![
                    Op::Sync { base: old(self)@.log.segments.last().base },
                ] && step.replies@ == released(flushed(old(self)@.log, now_ms), old(self)@.pending)
            } else {
                &&& final(self)@ == old(self)@
                &&& r is None
            },
    {
        match (self.dirty_since_ms, self.max_dirty_ms) {
            (Some(since), Some(max_ms)) => {
                let spent: u64 = if now_ms >= since {
                    now_ms - since
                } else {
                    0
                };
                if spent >= max_ms {
                    Some(self.flush(now_ms))
                } else {
                    None
                }
            },
            _ => None,
        }
    }

    /// Appends records fetched from a leader, verbatim.
    #[verifier::rlimit(40)]
    pub fn append_replicated(&mut self, records: Vec<Record>, now_ms: u64) -> (r: (
        Vec<FileOp>,
        std::result::Result<(), ErrorCode>,
    ))
        requires
            old(self).ok(),
            has_room(old(self)@.log, records@.len(), total_size(record_views(records@))),
        ensures
            final(self).ok(),
            ({
                let b = follow(old(self)@.log, record_views(records@), now_ms);
                &&& final(self)@ == (WriterView {
                    log: b.log,
                    dirty_since: dirty_from(b.log, old(self)@.dirty_since, now_ms),
                    ..old(self)@
                })
                &&& ops_view(r.0@) == b.ops
                &&& r.1 == (match b.error {
                    Some(code) => Err(code),
                    None => Ok(()),
                })
            }),
    {
        let ghost v = self@.log;
        let ghost rs = record_views(records@);
        let ghost start = self@;
        let mut ops: Vec<FileOp> = Vec::new();
        let mut error: Option<ErrorCode> = None;
        assert(rs.take(0) =~= Seq::empty());
        assert(ops_view(ops@) =~= Seq::empty());
        for x in it: records
            invariant
                it.seq() == records@,
                rs == record_views(records@),
                v.segments.len() > 0,
                has_room(v, rs.len(), total_size(rs)),
                self.parts_ok(),
                self@.epochs == start.epochs,
                self@.pending == start.pending,
                self@.dirty_since == start.dirty_since,
                self@.max_ms == start.max_ms,
                ({
                    let b = follow(v, rs.take(it.index()), now_ms);
                    &&& self@.log == b.log
                    &&& ops_view(ops@) == b.ops
                    &&& error == b.error
                }),
        {
            let ghost n = it.index();
            let ghost part = rs.take(n);
            let ghost more = rs.take(n + 1);
            proof {
                assert(more.drop_last() =~= part);
                assert(more.last() == x@);
                lemma_follow(v, part, now_ms);
                lemma_follow(v, more, now_ms);
                lemma_total_size(rs, n + 1);
            }
            if error.is_none() {
                match self.log.append_replicated(x, now_ms) {
                    Ok(done) => {
                        let (_, more_ops): (AppendInfo, Vec<FileOp>) = done;
                        join_ops(&mut ops, more_ops);
                    },
                    Err(e) => {
                        error = Some(map_storage_err(&e));
                    },
                }
            }
        }
        assert(rs.take(rs.len() as int) =~= rs);
        proof {
            lemma_follow(v, rs, now_ms);
        }
        assert(self.ok());
        self.dirty_since_ms = if self.dirty() {
            match self.dirty_since_ms {
                Some(since) => Some(since),
                None => Some(now_ms),
            }
        } else {
            None
        };
        match error {
            Some(code) => (ops, Err(code)),
            None => (ops, Ok(())),
        }
    }

    /// Cuts the log to `new_next`, with the epochs that started behind it.
    /// Produces whose records are cut off fail. `log` holds the log file of the
    /// segment that the log's `truncation_span` asks for.
    #[verifier::rlimit(40)]
    pub fn truncate_to(&mut self, new_next: u64, log: &[u8], now_ms: u64) -> (r: std::result::Result<
        Truncation,
        ErrorCode,
    >)
        requires
            old(self).ok(),
            next_of(old(self)@.log) <= MAX_OFFSET,
            start_of(old(self)@.log) <= new_next < next_of(old(self)@.log) ==> log@.len() == old(
                self,
            )@.log.segments[truncation_segment(old(self)@.log, new_next as nat)].size,
        ensures
            final(self).ok(),
            match truncated(old(self)@.log, new_next, log@) {
                Ok(w) => {
                    let next = next_of(w) as u64;
                    let es = starting_before(old(self)@.epochs, new_next);
                    &&& final(self)@ == (WriterView {
                        log: w,
                        epochs: es,
                        pending: covered(old(self)@.pending, next),
                        dirty_since: dirty_from(w, old(self)@.dirty_since, now_ms),
                        max_ms: old(self)@.max_ms,
                    })
                    &&& r matches Ok(t) && ops_view(t.ops@) == (if new_next >= next_of(
                        old(self)@.log,
                    ) {
                        Seq::empty()
                    } else {
                        truncate_ops(old(self)@.log, w)
                    }) && t.replies@ == failures(
                        parked(old(self)@.pending, next),
                        ErrorCode::NotLeader,
                    ) && (t.checkpoint is None <==> es.len() == old(self)@.epochs.len()) && (
                    t.checkpoint matches Some(bytes) ==> bytes@ == checkpoint_bytes(es))
                },
                Err(e) => final(self)@ == old(self)@ && r == Err::<Truncation, ErrorCode>(
                    storage_code(e),
                ),
            },
    {
        let ghost start = self@;
        let ops: Vec<FileOp> = match self.log.truncate_suffix(new_next, log) {
            Ok(ops) => ops,
            Err(e) => {
                return Err(map_storage_err(&e));
            },
        };
        let checkpoint: Option<Vec<u8>> = self.epochs.truncate_to(new_next);
        let next: u64 = self.log.next_offset();
        let ghost ps = self.pending@;
        let mut kept: Vec<Pending> = Vec::new();
        let mut replies: Vec<Reply> = Vec::new();
        let mut i: usize = 0;
        assert(ps.take(0) =~= Seq::empty());
        assert(failures(Seq::<Pending>::empty(), ErrorCode::NotLeader) =~= Seq::empty());
        while i < self.pending.len()
            invariant
                i <= self.pending@.len(),
                ps == self.pending@,
                self.parts_ok(),
                self@.log == truncated(start.log, new_next, log@)->Ok_0,
                next == next_of(self@.log),
                self@.epochs == starting_before(start.epochs, new_next),
                self@.dirty_since == start.dirty_since,
                self@.max_ms == start.max_ms,
                kept@ == covered(ps.take(i as int), next),
                replies@ == failures(parked(ps.take(i as int), next), ErrorCode::NotLeader),
            decreases self.pending@.len() - i,
        {
            let p: Pending = self.pending[i];
            let ghost before = parked(ps.take(i as int), next);
            proof {
                assert(ps.take(i + 1).drop_last() =~= ps.take(i as int));
                assert(ps.take(i + 1).last() == p);
            }
            if p.last_offset < next {
                kept.push(p);
            } else {
                replies.push(Reply { ticket: p.ticket, result: Err(ErrorCode::NotLeader) });
                assert(replies@ =~= failures(before.push(p), ErrorCode::NotLeader));
            }
            i += 1;
        }
        assert(ps.take(i as int) =~= ps);
        self.pending = kept;
        proof {
            lemma_covered_queued(ps, next);
        }
        assert(self.ok());
        self.dirty_since_ms = if self.dirty() {
            match self.dirty_since_ms {
                Some(since) => Some(since),
                None => Some(now_ms),
            }
        } else {
            None
        };
        Ok(Truncation { ops, checkpoint, replies })
    }

    /// Notes that `epoch` starts at the log's end; returns the bytes to append
    /// to the checkpoint file and force to stable storage.
    pub fn record_epoch(&mut self, epoch: u64) -> (r: std::result::Result<Vec<u8>, String>)
        requires
            old(self).ok(),
        ensures
            final(self).ok(),
            ({
                let e = (epoch, next_of(old(self)@.log) as u64);
                match epoch_appended(old(self)@.epochs, e) {
                    Ok(es) => r is Ok && final(self)@ == (WriterView { epochs: es, ..old(self)@ })
                        && r->Ok_0@ == (if es == old(self)@.epochs {
                        Seq::empty()
                    } else {
                        epoch_bytes(e)
                    }),
                    Err(text) => r is Err && r->Err_0@ == text && final(self)@ == old(self)@,
                }
            }),
    {
        let next: u64 = self.log.next_offset();
        self.epochs.append(epoch, next)
    }

    /// The log's last epoch, and its end.
    pub fn epoch_status(&self) -> (r: (u64, u64))
        requires
            self.ok(),
        ensures
            r.0 == (if self@.epochs.len() == 0 {
                0
            } else {
                self@.epochs.last().0
            }),
            r.1 == next_of(self@.log),
    {
        (self.epochs.current_epoch(), self.log.next_offset())
    }

    /// Where an epoch ends in this log.
    pub fn epoch_end_for(&self, epoch: u64) -> (r: u64)
        requires
            self.ok(),
        ensures
            r == end_offset(self@.epochs, epoch, next_of(self@.log) as u64),
    {
        let next: u64 = self.log.next_offset();
        self.epochs.end_offset_for(epoch, next)
    }
}

proof fn lemma_covered_queued(ps: Seq<Pending>, next: u64)
    requires
        forall|i: int, j: int|
            0 <= i < j < ps.len() ==> (#[trigger] ps[i]).last_offset <= (
            #[trigger] ps[j]).last_offset,
    ensures
        queued(covered(ps, next), next as nat),
        forall|i: int|
            0 <= i < covered(ps, next).len() ==> ps.contains(#[trigger] covered(ps, next)[i]),
    decreases ps.len(),
{
    if ps.len() > 0 {
        let head = ps.drop_last();
        assert forall|i: int, j: int| 0 <= i < j < head.len() implies (
        #[trigger] head[i]).last_offset <= (#[trigger] head[j]).last_offset by {
            assert(head[i] == ps[i] && head[j] == ps[j]);
        }
        lemma_covered_queued(head, next);
        let h = covered(head, next);
        let r = covered(ps, next);
        assert forall|i: int| 0 <= i < r.len() implies ps.contains(#[trigger] r[i]) by {
            if i < h.len() {
                assert(head.contains(h[i]));
                let k = choose|k: int| 0 <= k < head.len() && head[k] == h[i];
                assert(ps[k] == r[i]);
            } else {
                assert(ps[ps.len() - 1] == r[i]);
            }
        }
        assert forall|i: int, j: int| 0 <= i < j < r.len() implies (#[trigger] r[i]).last_offset
            <= (#[trigger] r[j]).last_offset by {
            if j == h.len() {
                assert(head.contains(h[i]));
                let k = choose|k: int| 0 <= k < head.len() && head[k] == h[i];
                assert(ps[k] == r[i] && ps[ps.len() - 1] == r[j]);
            } else {
                assert(h[i].last_offset <= h[j].last_offset);
            }
        }
    }
}

/// A durable produce is answered only once a flush has covered its last record.
pub proof fn law_durable_means_flushed(log: LogView, ps: Seq<Pending>, i: int)
    requires
        0 <= i < released(log, ps).len(),
    ensures
        is_durable(log.durable, ps[i].last_offset),
        released(log, ps)[i] == answer(ps[i]),
{
    lemma_flushed_bound(ps, log.durable);
}

/// A durable produce that is answered at once is one that a flush has covered
/// already, unless the log never flushes.
pub proof fn law_immediate_is_flushed(b: Batch, base: u64, ticket: u64)
    requires
        b.error is None,
        b.count > 0,
        immediate(b, base, Acks::Durable, Some(ticket)).len() > 0,
        !(b.log.config.fsync is Os),
    ensures
        is_durable(b.log.durable, (next_of(b.log) - 1) as u64),
{
}

/// Records that a flush has covered survive a crash, whatever else it takes: the
/// log opens again and has them, each as it was. `m` says how many bytes of each
/// log file are on stable storage, `cut` how many of the newest the crash
/// leaves, and `k` how many records those hold.
pub proof fn law_durable_survives_crash(
    v: LogView,
    d: Disk,
    m: Map<nat, nat>,
    cut: int,
    k: int,
    now_ms: u64,
    first: u64,
    last: u64,
)
    requires
        log_ok(v),
        kept(v, d),
        secured(v, d, m),
        m[v.segments.last().base] <= cut <= v.segments.last().size,
        ({
            let s = v.segments.last();
            let rs = records(s, d.logs[s.base], v.config.max_record_bytes);
            &&& 0 <= k <= rs.len()
            &&& total(rs.take(k)) <= cut
            &&& k < rs.len() ==> cut < total(rs.take(k + 1))
        }),
        start_of(v) <= first <= last,
        is_durable(v.durable, last),
    ensures
        ({
            let after = crashed(v, d, cut);
            let files = files_of(v.segments, after);
            let again = opened(files, v.config, now_ms);
            let w = again->Ok_0;
            let e = apply_all(after, open_ops(files, v.config));
            &&& again is Ok
            &&& kept(w, e)
            &&& start_of(w) == start_of(v)
            &&& last < next_of(w)
            &&& all_records(w, e).subrange(first - start_of(v), last + 1 - start_of(v))
                == all_records(v, d).subrange(first - start_of(v), last + 1 - start_of(v))
        }),
{
    law_fsynced_survives(v, d, m, cut, k, now_ms, last);
    law_offsets(v, d);
    let after = crashed(v, d, cut);
    let files = files_of(v.segments, after);
    let w = opened(files, v.config, now_ms)->Ok_0;
    let e = apply_all(after, open_ops(files, v.config));
    assert(all_records(w, e).subrange(first - start_of(v), last + 1 - start_of(v))
        =~= all_records(v, d).subrange(first - start_of(v), last + 1 - start_of(v)));
}

/// No durable produce is stranded: once a step is done, whatever a flush has
/// covered has been answered; and a flush covers everything.
pub proof fn law_no_ack_stranded(v: WriterView, now_ms: u64, i: int)
    requires
        queued(v.pending, next_of(v.log)),
        next_of(v.log) <= u64::MAX,
    ensures
        ({
            let left = drained(v, v.log, v.pending, v.dirty_since).pending;
            0 <= i < left.len() ==> !is_durable(v.log.durable, left[i].last_offset)
        }),
        flush_done(v, now_ms).pending.len() == 0,
        !is_dirty(flush_done(v, now_ms).log),
{
    let n = flushed_count(v.pending, v.log.durable) as int;
    lemma_flushed_bound(v.pending, v.log.durable);
    let left = v.pending.skip(n);
    if 0 <= i < left.len() {
        assert(left[i] == v.pending[n + i]);
        assert(left[0] == v.pending[n]);
        if i > 0 {
            assert(v.pending[n].last_offset <= v.pending[n + i].last_offset);
        }
    }
    let f = flushed(v.log, now_ms);
    lemma_flushed_bound(v.pending, f.durable);
    let m = flushed_count(v.pending, f.durable) as int;
    if m < v.pending.len() {
        assert(v.pending[m].last_offset < next_of(v.log));
    }
}

/// A writer that holds records back for a group commit wakes up in time for it.
pub proof fn law_wakes_for_commit(v: WriterView, now_ms: u64, later_ms: u64)
    requires
        v.dirty_since matches Some(since) && since <= now_ms,
        v.max_ms is Some,
        later_ms >= now_ms + wait_of(v, now_ms),
    ensures
        flush_due(v, later_ms),
{
}

/// An append flushes for its size alone; the time of a group commit is the
/// writer's.
pub proof fn law_size_alone_flushes(v: LogView, max_bytes: u64, max_ms: u64, now_ms: u64)
    requires
        v.config.fsync == (FsyncPolicy::Batch { max_bytes, max_ms }),
        now_ms < u64::MAX,
    ensures
        must_flush(untimed(v).config.fsync, v.dirty, now_ms, v.last_flush_ms) <==> v.dirty
            >= max_bytes,
{
}

proof fn lemma_follow_verbatim(v: LogView, rs: Seq<RecordView>, now_ms: u64, i: int)
    requires
        v.segments.len() > 0,
        0 <= i < follow(v, rs, now_ms).count,
    ensures
        i < rs.len(),
        rs[i].offset == next_of(v) + i,
    decreases rs.len(),
{
    if rs.len() > 0 {
        let head = rs.drop_last();
        lemma_follow(v, head, now_ms);
        lemma_follow(v, rs, now_ms);
        if i < follow(v, head, now_ms).count {
            lemma_follow_verbatim(v, head, now_ms, i);
            assert(head[i] == rs[i]);
        } else {
            lemma_follow_full(v, head, now_ms);
        }
    }
}

proof fn lemma_follow_full(v: LogView, rs: Seq<RecordView>, now_ms: u64)
    ensures
        follow(v, rs, now_ms).error is None ==> follow(v, rs, now_ms).count == rs.len(),
    decreases rs.len(),
{
    if rs.len() > 0 {
        lemma_follow_full(v, rs.drop_last(), now_ms);
    }
}

/// A follower takes its leader's records in at their own offsets, without a gap
/// and without rewriting any: the `i`-th that it took stands `i` behind its old
/// end.
pub proof fn law_replicated_verbatim(v: LogView, rs: Seq<RecordView>, now_ms: u64, i: int)
    requires
        v.segments.len() > 0,
        0 <= i < follow(v, rs, now_ms).count,
    ensures
        rs[i].offset == next_of(v) + i,
        next_of(follow(v, rs, now_ms).log) == next_of(v) + follow(v, rs, now_ms).count,
{
    lemma_follow(v, rs, now_ms);
    lemma_follow_verbatim(v, rs, now_ms, i);
}

} // verus!
