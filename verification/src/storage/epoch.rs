//! Leader-epoch checkpoint: per-partition history of (epoch, start_offset)
//! pairs, appended when a replica becomes leader for a new epoch.
//!
//! This is what makes divergence detection possible (KIP-101's insight): a
//! follower reports the last epoch in its history and the leader answers with
//! where that epoch *ended* in the leader's history; the follower truncates to
//! the smaller of the two. Offsets alone cannot distinguish "same history,
//! shorter" from "different history, same length" — epochs can.
//!
//! Unlike the sparse index this file is NOT derived state (it encodes history
//! that the log bytes alone don't), so it is fsynced on append and a malformed
//! file is a hard error, not a rebuild.

use super::index::file_view;
use crate::codec::{
    get_le, law_le_roundtrip, le, le_value, lemma_le_value_bound, lemma_pow256_values, put_le,
};
use crate::text::{decimal, push_decimal};
use vstd::prelude::*;
use vstd::slice::*;
use vstd::string::*;

verus! {

const ENTRY_BYTES: usize = 16;

/// Epochs rise and starts do not fall from entry to entry.
pub open spec fn monotonic(es: Seq<(u64, u64)>) -> bool {
    forall|i: int, j: int| 0 <= i < j < es.len() ==> es[i].0 < es[j].0 && es[i].1 <= es[j].1
}

/// The bytes of an entry.
pub open spec fn epoch_bytes(e: (u64, u64)) -> Seq<u8> {
    le(e.0 as nat, 8) + le(e.1 as nat, 8)
}

/// The bytes of a checkpoint file.
pub open spec fn checkpoint_bytes(es: Seq<(u64, u64)>) -> Seq<u8>
    decreases es.len(),
{
    if es.len() == 0 {
        Seq::empty()
    } else {
        checkpoint_bytes(es.drop_last()) + epoch_bytes(es.last())
    }
}

/// The entry that stands `i` entries into `bytes`.
pub open spec fn epoch_at(bytes: Seq<u8>, i: int) -> (u64, u64) {
    (
        le_value(bytes.subrange(16 * i, 16 * i + 8)) as u64,
        le_value(bytes.subrange(16 * i + 8, 16 * i + 16)) as u64,
    )
}

pub open spec fn epochs_in(bytes: Seq<u8>) -> Seq<(u64, u64)> {
    Seq::new(bytes.len() / 16, |i: int| epoch_at(bytes, i))
}

/// What a checkpoint file holds; a file that is not there holds nothing.
pub open spec fn checkpoint_of(file: Option<Seq<u8>>) -> Result<Seq<(u64, u64)>, Seq<char>> {
    match file {
        None => Ok(Seq::empty()),
        Some(b) => if b.len() % 16 != 0 {
            Err("leader-epochs file has a partial entry"@)
        } else if !monotonic(epochs_in(b)) {
            Err("leader-epochs entries are not monotonic"@)
        } else {
            Ok(epochs_in(b))
        },
    }
}

/// The first entry of a later epoch than `epoch`.
pub open spec fn first_later(es: Seq<(u64, u64)>, epoch: u64) -> int
    decreases es.len(),
{
    if es.len() == 0 || es[0].0 > epoch {
        0
    } else {
        1 + first_later(es.skip(1), epoch)
    }
}

/// Where `epoch` ended in a history of a log that ends at `log_end`.
pub open spec fn end_offset(es: Seq<(u64, u64)>, epoch: u64, log_end: u64) -> u64 {
    let k = first_later(es, epoch);
    if k == 0 {
        0
    } else if k < es.len() {
        es[k].1
    } else {
        log_end
    }
}

/// The entries at the front that start before `new_next`.
pub open spec fn starting_before(es: Seq<(u64, u64)>, new_next: u64) -> Seq<(u64, u64)>
    decreases es.len(),
{
    if es.len() == 0 || es[0].1 >= new_next {
        Seq::empty()
    } else {
        seq![es[0]] + starting_before(es.skip(1), new_next)
    }
}

pub open spec fn does_not_follow(e: (u64, u64), last: (u64, u64)) -> Seq<char> {
    "epoch entry ("@ + decimal(e.0 as nat) + ", "@ + decimal(e.1 as nat) + ") does not follow ("@
        + decimal(last.0 as nat) + ", "@ + decimal(last.1 as nat) + ")"@
}

/// What appending an entry to a history does: nothing, an error, or one entry
/// more.
pub open spec fn epoch_appended(es: Seq<(u64, u64)>, e: (u64, u64)) -> Result<
    Seq<(u64, u64)>,
    Seq<char>,
> {
    if es.len() > 0 && es.last() == e {
        Ok(es)
    } else if es.len() > 0 && (e.0 <= es.last().0 || e.1 < es.last().1) {
        Err(does_not_follow(e, es.last()))
    } else {
        Ok(es.push(e))
    }
}

pub struct EpochCheckpoint {
    entries: Vec<(u64, u64)>,
}

impl View for EpochCheckpoint {
    type V = Seq<(u64, u64)>;

    closed spec fn view(&self) -> Seq<(u64, u64)> {
        self.entries@
    }
}

pub proof fn lemma_first_later(es: Seq<(u64, u64)>, epoch: u64, k: int)
    requires
        0 <= k <= es.len(),
        forall|i: int| 0 <= i < k ==> es[i].0 <= epoch,
        k < es.len() ==> es[k].0 > epoch,
    ensures
        first_later(es, epoch) == k,
    decreases es.len(),
{
    if k > 0 {
        lemma_first_later(es.skip(1), epoch, k - 1);
    }
}

proof fn lemma_first_later_splits(es: Seq<(u64, u64)>, epoch: u64)
    ensures
        ({
            let k = first_later(es, epoch);
            &&& 0 <= k <= es.len()
            &&& forall|i: int| 0 <= i < k ==> es[i].0 <= epoch
            &&& k < es.len() ==> es[k].0 > epoch
        }),
    decreases es.len(),
{
    if es.len() > 0 && es[0].0 <= epoch {
        let tail = es.skip(1);
        lemma_first_later_splits(tail, epoch);
        let k = first_later(es, epoch);
        assert forall|i: int| 0 <= i < k implies es[i].0 <= epoch by {
            if i > 0 {
                assert(es[i] == tail[i - 1]);
            }
        }
    }
}

proof fn lemma_starting_before(es: Seq<(u64, u64)>, new_next: u64, k: int)
    requires
        0 <= k <= es.len(),
        forall|i: int| 0 <= i < k ==> es[i].1 < new_next,
        k < es.len() ==> es[k].1 >= new_next,
    ensures
        starting_before(es, new_next) == es.take(k),
    decreases es.len(),
{
    if k > 0 {
        lemma_starting_before(es.skip(1), new_next, k - 1);
        assert(seq![es[0]] + es.skip(1).take(k - 1) =~= es.take(k));
    } else {
        assert(es.take(0) =~= Seq::empty());
    }
}

proof fn lemma_starting_before_split(es: Seq<(u64, u64)>, new_next: u64) -> (k: int)
    ensures
        0 <= k <= es.len(),
        starting_before(es, new_next) == es.take(k),
        forall|i: int| 0 <= i < k ==> es[i].1 < new_next,
        k < es.len() ==> es[k].1 >= new_next,
    decreases es.len(),
{
    if es.len() == 0 || es[0].1 >= new_next {
        assert(es.take(0) =~= Seq::empty());
        0
    } else {
        let tail = es.skip(1);
        let k = lemma_starting_before_split(tail, new_next);
        assert(seq![es[0]] + tail.take(k) =~= es.take(k + 1));
        assert forall|i: int| 0 <= i < k + 1 implies es[i].1 < new_next by {
            if i > 0 {
                assert(es[i] == tail[i - 1]);
            }
        }
        k + 1
    }
}

/// A checkpoint file that a history was written to loads as that history.
pub proof fn law_checkpoint_roundtrip(es: Seq<(u64, u64)>)
    requires
        monotonic(es),
    ensures
        checkpoint_of(Some(checkpoint_bytes(es))) == Ok::<Seq<(u64, u64)>, Seq<char>>(es),
{
    lemma_epochs_in(es);
}

proof fn lemma_epochs_in(es: Seq<(u64, u64)>)
    ensures
        checkpoint_bytes(es).len() == 16 * es.len(),
        epochs_in(checkpoint_bytes(es)) == es,
    decreases es.len(),
{
    let b = checkpoint_bytes(es);
    if es.len() == 0 {
        assert(epochs_in(b) =~= es);
    } else {
        let head = es.drop_last();
        let e = es.last();
        let hb = checkpoint_bytes(head);
        lemma_epochs_in(head);
        lemma_pow256_values();
        law_le_roundtrip(e.0 as nat, 8);
        law_le_roundtrip(e.1 as nat, 8);
        let n = head.len() as int;
        assert(b.subrange(16 * n, 16 * n + 8) =~= le(e.0 as nat, 8));
        assert(b.subrange(16 * n + 8, 16 * n + 16) =~= le(e.1 as nat, 8));
        assert forall|i: int| 0 <= i < es.len() implies epoch_at(b, i) == es[i] by {
            if i < n {
                assert(b.subrange(16 * i, 16 * i + 8) =~= hb.subrange(16 * i, 16 * i + 8));
                assert(b.subrange(16 * i + 8, 16 * i + 16) =~= hb.subrange(
                    16 * i + 8,
                    16 * i + 16,
                ));
                assert(epochs_in(hb)[i] == head[i]);
            }
        }
        assert(epochs_in(b) =~= es);
    }
}

/// An epoch is noted where it is later than the last one and starts no earlier;
/// noting the last one again changes nothing; and any other is refused.
pub proof fn law_epoch_noted(es: Seq<(u64, u64)>, epoch: u64, start: u64)
    requires
        monotonic(es),
    ensures
        ({
            let r = epoch_appended(es, (epoch, start));
            let later = es.len() == 0 || epoch > es.last().0 && start >= es.last().1;
            let again = es.len() > 0 && es.last() == (epoch, start);
            &&& r is Ok <==> later || again
            &&& later ==> r->Ok_0 == es.push((epoch, start)) && monotonic(r->Ok_0)
            &&& again ==> r->Ok_0 == es
        }),
{
    if es.len() > 0 && epoch > es.last().0 && start >= es.last().1 {
        let out = es.push((epoch, start));
        assert forall|i: int, j: int| 0 <= i < j < out.len() implies out[i].0 < out[j].0
            && out[i].1 <= out[j].1 by {
            if j == es.len() {
                assert(es[i].0 <= es[es.len() - 1].0 && es[i].1 <= es[es.len() - 1].1);
            }
        }
    }
}


/// A later epoch does not end before an earlier one, and none ends behind the
/// log, in a history whose starts lie in the log.
pub proof fn law_end_offset_rises(es: Seq<(u64, u64)>, a: u64, b: u64, log_end: u64)
    requires
        monotonic(es),
        forall|i: int| 0 <= i < es.len() ==> (#[trigger] es[i]).1 <= log_end,
        a <= b,
    ensures
        end_offset(es, a, log_end) <= end_offset(es, b, log_end) <= log_end,
{
    lemma_first_later_splits(es, a);
    lemma_first_later_splits(es, b);
    let i = first_later(es, a);
    let j = first_later(es, b);
    if i > j {
        assert(es[j].0 > b);
        assert(es[j].0 <= a);
    }
}

/// An epoch of the history ends where the next one starts; the current epoch
/// ends where the log does; an epoch before the whole history ends at 0.
pub proof fn law_end_offset(es: Seq<(u64, u64)>, i: int, log_end: u64)
    requires
        monotonic(es),
        0 <= i < es.len(),
    ensures
        end_offset(es, es[i].0, log_end) == (if i + 1 < es.len() {
            es[i + 1].1
        } else {
            log_end
        }),
        forall|epoch: u64| epoch < es[0].0 ==> #[trigger] end_offset(es, epoch, log_end) == 0,
{
    lemma_first_later(es, es[i].0, i + 1);
}

/// A truncation keeps exactly the entries that start before the new end, and
/// the history stays monotonic.
pub proof fn law_epochs_truncated(es: Seq<(u64, u64)>, new_next: u64)
    requires
        monotonic(es),
    ensures
        ({
            let kept = starting_before(es, new_next);
            &&& monotonic(kept)
            &&& forall|e: (u64, u64)|
                #[trigger] kept.contains(e) <==> es.contains(e) && e.1 < new_next
        }),
{
    let k = lemma_starting_before_split(es, new_next);
    let kept = starting_before(es, new_next);
    assert forall|e: (u64, u64)| #[trigger] kept.contains(e) <==> es.contains(e) && e.1
        < new_next by {
        if kept.contains(e) {
            let i = choose|i: int| 0 <= i < kept.len() && kept[i] == e;
            assert(es[i] == e);
        }
        if es.contains(e) && e.1 < new_next {
            let i = choose|i: int| 0 <= i < es.len() && es[i] == e;
            if i >= k {
                assert(es[k].1 >= new_next);
            }
            assert(kept[i] == e);
        }
    }
}

impl EpochCheckpoint {
    pub open spec fn ok(self) -> bool {
        monotonic(self@)
    }

    /// Loads the history from the contents of the checkpoint file, where there
    /// is one.
    pub fn load(file: Option<&[u8]>) -> (r: Result<Self, String>)
        ensures
            match checkpoint_of(file_view(file)) {
                Ok(es) => r is Ok && r->Ok_0@ == es && r->Ok_0.ok(),
                Err(text) => r is Err && r->Err_0@ == text,
            },
    {
        let mut entries: Vec<(u64, u64)> = Vec::new();
        let bytes: &[u8] = match file {
            None => {
                assert(entries@ =~= Seq::empty());
                return Ok(EpochCheckpoint { entries });
            },
            Some(b) => b,
        };
        let len: usize = bytes.len();
        if len % ENTRY_BYTES != 0 {
            return Err("leader-epochs file has a partial entry".to_owned());
        }
        let n: usize = len / ENTRY_BYTES;
        let mut i: usize = 0;
        while i < n
            invariant
                len == bytes@.len(),
                len % 16 == 0,
                n == len / 16,
                i <= n,
                file == Some(bytes),
                entries@ == epochs_in(bytes@).take(i as int),
                monotonic(entries@),
            decreases n - i,
        {
            proof {
                lemma_pow256_values();
                lemma_le_value_bound(bytes@.subrange(16 * i, 16 * i + 8));
                lemma_le_value_bound(bytes@.subrange(16 * i + 8, 16 * i + 16));
            }
            let epoch: u64 = get_le(slice_subrange(bytes, 16 * i, 16 * i + 8));
            let start: u64 = get_le(slice_subrange(bytes, 16 * i + 8, 16 * i + 16));
            assert(epochs_in(bytes@)[i as int] == (epoch, start));
            if i > 0 {
                let last: (u64, u64) = entries[i - 1];
                if epoch <= last.0 || start < last.1 {
                    assert(epochs_in(bytes@)[i - 1] == last);
                    return Err("leader-epochs entries are not monotonic".to_owned());
                }
            }
            entries.push((epoch, start));
            i = i + 1;
            assert(entries@ =~= epochs_in(bytes@).take(i as int));
        }
        assert(entries@ =~= epochs_in(bytes@));
        Ok(EpochCheckpoint { entries })
    }

    pub fn entries(&self) -> (r: &[(u64, u64)])
        ensures
            r@ == self@,
    {
        self.entries.as_slice()
    }

    pub fn last(&self) -> (r: Option<(u64, u64)>)
        ensures
            r == (if self@.len() == 0 {
                None
            } else {
                Some(self@.last())
            }),
    {
        if self.entries.len() == 0 {
            None
        } else {
            Some(self.entries[self.entries.len() - 1])
        }
    }

    pub fn current_epoch(&self) -> (r: u64)
        ensures
            r == (if self@.len() == 0 {
                0
            } else {
                self@.last().0
            }),
    {
        match self.last() {
            Some((epoch, _)) => epoch,
            None => 0,
        }
    }

    /// Records that `epoch` starts at `start_offset`; returns the bytes to
    /// append to the checkpoint file and force to stable storage. No-op if it
    /// is already the newest entry.
    pub fn append(&mut self, epoch: u64, start_offset: u64) -> (r: Result<Vec<u8>, String>)
        requires
            old(self).ok(),
        ensures
            final(self).ok(),
            match epoch_appended(old(self)@, (epoch, start_offset)) {
                Ok(es) => r is Ok && final(self)@ == es && r->Ok_0@ == (if es == old(self)@ {
                    Seq::empty()
                } else {
                    epoch_bytes((epoch, start_offset))
                }),
                Err(text) => r is Err && r->Err_0@ == text && final(self)@ == old(self)@,
            },
    {
        let mut buf: Vec<u8> = Vec::new();
        if let Some((last_epoch, last_start)) = self.last() {
            if epoch == last_epoch && start_offset == last_start {
                assert(buf@ =~= Seq::empty());
                return Ok(buf);
            }
            if epoch <= last_epoch || start_offset < last_start {
                let mut text: String = "epoch entry (".to_owned();
                push_decimal(&mut text, epoch);
                text.append(", ");
                push_decimal(&mut text, start_offset);
                text.append(") does not follow (");
                push_decimal(&mut text, last_epoch);
                text.append(", ");
                push_decimal(&mut text, last_start);
                text.append(")");
                return Err(text);
            }
        }
        put_le(&mut buf, epoch, 8);
        put_le(&mut buf, start_offset, 8);
        assert(buf@ =~= epoch_bytes((epoch, start_offset)));
        let ghost es = self@;
        self.entries.push((epoch, start_offset));
        assert(self@.len() != es.len());
        Ok(buf)
    }

    /// Answers "where did `epoch` end in this history?" for a log ending at
    /// `log_end`: the start of the first later epoch, `log_end` if `epoch` is
    /// still current, or 0 if `epoch` predates the whole history (the asker
    /// shares nothing with us).
    pub fn end_offset_for(&self, epoch: u64, log_end: u64) -> (r: u64)
        ensures
            r == end_offset(self@, epoch, log_end),
    {
        let mut i: usize = 0;
        while i < self.entries.len() && self.entries[i].0 <= epoch
            invariant
                i <= self@.len(),
                forall|j: int| 0 <= j < i ==> self@[j].0 <= epoch,
            decreases self@.len() - i,
        {
            i = i + 1;
        }
        proof {
            lemma_first_later(self@, epoch, i as int);
        }
        if i == 0 {
            0
        } else if i < self.entries.len() {
            self.entries[i].1
        } else {
            log_end
        }
    }

    /// Drops entries made obsolete by a log truncation to `new_next`
    /// (entries whose start offset is at or past the new end). Returns the new
    /// contents of the checkpoint file, if they change.
    pub fn truncate_to(&mut self, new_next: u64) -> (r: Option<Vec<u8>>)
        requires
            old(self).ok(),
        ensures
            final(self).ok(),
            final(self)@ == starting_before(old(self)@, new_next),
            r is None <==> final(self)@.len() == old(self)@.len(),
            r matches Some(bytes) ==> bytes@ == checkpoint_bytes(final(self)@),
    {
        let mut keep: usize = 0;
        while keep < self.entries.len() && self.entries[keep].1 < new_next
            invariant
                keep <= self@.len(),
                forall|j: int| 0 <= j < keep ==> self@[j].1 < new_next,
            decreases self@.len() - keep,
        {
            keep = keep + 1;
        }
        proof {
            lemma_starting_before(self@, new_next, keep as int);
        }
        if keep == self.entries.len() {
            assert(self@.take(keep as int) =~= self@);
            return None;
        }
        self.entries.truncate(keep);
        let mut out: Vec<u8> = Vec::new();
        let mut i: usize = 0;
        while i < self.entries.len()
            invariant
                i <= self@.len(),
                out@ == checkpoint_bytes(self@.take(i as int)),
            decreases self@.len() - i,
        {
            let ghost before = out@;
            let e: (u64, u64) = self.entries[i];
            put_le(&mut out, e.0, 8);
            put_le(&mut out, e.1, 8);
            assert(out@ =~= before + epoch_bytes(e));
            i = i + 1;
            assert(self@.take(i as int).drop_last() =~= self@.take(i - 1));
        }
        assert(self@.take(i as int) =~= self@);
        Some(out)
    }
}

} // verus!
