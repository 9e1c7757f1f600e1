//! The sparse offset index of a segment.

use crate::codec::{
    get_le, le, le_value, lemma_le_len, lemma_le_value_bound, lemma_pow256_values, put_le,
};
use vstd::prelude::*;
use vstd::slice::*;

verus! {

pub const ENTRY_BYTES: usize = 8;

/// Sparse offset index for one segment: `(relative_offset, file_position)`
/// pairs, one per ~index_interval_bytes of log written.
///
/// The index is derived state — a pure cache over the log. If it is missing or
/// malformed it is rebuilt by scanning the segment, so it is never fsynced and
/// can never become a source of truth to corrupt.
pub struct SparseIndex {
    entries: Vec<(u32, u32)>,
}

/// The bytes of an entry.
pub open spec fn entry_bytes(e: (u32, u32)) -> Seq<u8> {
    le(e.0 as nat, 4) + le(e.1 as nat, 4)
}

/// The bytes of entries, one behind the other.
pub open spec fn entries_bytes(es: Seq<(u32, u32)>) -> Seq<u8>
    decreases es.len(),
{
    if es.len() == 0 {
        Seq::empty()
    } else {
        entries_bytes(es.drop_last()) + entry_bytes(es.last())
    }
}

/// The entry that stands `i` entries into `bytes`.
pub open spec fn entry_at(bytes: Seq<u8>, i: int) -> (u32, u32) {
    (
        le_value(bytes.subrange(8 * i, 8 * i + 4)) as u32,
        le_value(bytes.subrange(8 * i + 4, 8 * i + 8)) as u32,
    )
}

/// The entries that stand in `bytes`.
pub open spec fn entries_in(bytes: Seq<u8>) -> Seq<(u32, u32)> {
    Seq::new(bytes.len() / 8, |i: int| entry_at(bytes, i))
}

/// Both columns rise from entry to entry.
pub open spec fn rising(es: Seq<(u32, u32)>) -> bool {
    forall|i: int, j: int| 0 <= i < j < es.len() ==> es[i].0 < es[j].0 && es[i].1 < es[j].1
}

/// The entries of an index file, where it is there and well-formed.
pub open spec fn loaded(bytes: Option<Seq<u8>>) -> Option<Seq<(u32, u32)>> {
    match bytes {
        None => None,
        Some(b) => if b.len() % 8 == 0 && rising(entries_in(b)) {
            Some(entries_in(b))
        } else {
            None
        },
    }
}

/// What the bytes of an optional file are.
pub open spec fn file_view(file: Option<&[u8]>) -> Option<Seq<u8>> {
    match file {
        None => None,
        Some(b) => Some(b@),
    }
}

impl View for SparseIndex {
    type V = Seq<(u32, u32)>;

    closed spec fn view(&self) -> Seq<(u32, u32)> {
        self.entries@
    }
}

impl SparseIndex {
    pub fn create() -> (r: Self)
        ensures
            r@ == Seq::<(u32, u32)>::empty(),
    {
        SparseIndex { entries: Vec::new() }
    }

    /// Loads an existing index. Gives nothing if the file is absent or
    /// malformed — the caller rebuilds from the log instead of failing.
    pub fn load(file: Option<&[u8]>) -> (r: Option<Self>)
        ensures
            match loaded(file_view(file)) {
                None => r is None,
                Some(es) => r is Some && r->0@ == es,
            },
    {
        let bytes: &[u8] = match file {
            None => {
                return None;
            },
            Some(b) => b,
        };
        if bytes.len() % ENTRY_BYTES != 0 {
            return None;
        }
        let len: usize = bytes.len();
        let n: usize = len / ENTRY_BYTES;
        let mut entries: Vec<(u32, u32)> = Vec::new();
        let mut i: usize = 0;
        while i < n
            invariant
                len == bytes@.len(),
                len % 8 == 0,
                n == len / 8,
                i <= n,
                entries@ == entries_in(bytes@).take(i as int),
                rising(entries@),
                file == Some(bytes),
            decreases n - i,
        {
            proof {
                lemma_pow256_values();
                lemma_le_value_bound(bytes@.subrange(8 * i, 8 * i + 4));
                lemma_le_value_bound(bytes@.subrange(8 * i + 4, 8 * i + 8));
            }
            let rel: u32 = get_le(slice_subrange(bytes, 8 * i, 8 * i + 4)) as u32;
            let pos: u32 = get_le(slice_subrange(bytes, 8 * i + 4, 8 * i + 8)) as u32;
            assert(entries_in(bytes@)[i as int] == (rel, pos));
            if i > 0 {
                let last: (u32, u32) = entries[i - 1];
                if rel <= last.0 || pos <= last.1 {
                    assert(entries_in(bytes@)[i - 1] == last);
                    return None;
                }
            }
            entries.push((rel, pos));
            i = i + 1;
            assert(entries@ =~= entries_in(bytes@).take(i as int));
        }
        assert(entries@ =~= entries_in(bytes@));
        Some(SparseIndex { entries })
    }

    /// Adds an entry; returns the bytes to append to the index file.
    pub fn append(&mut self, relative_offset: u32, file_position: u32) -> (bytes: Vec<u8>)
        ensures
            final(self)@ == old(self)@.push((relative_offset, file_position)),
            bytes@ == entry_bytes((relative_offset, file_position)),
    {
        let mut buf: Vec<u8> = Vec::new();
        put_le(&mut buf, relative_offset as u64, 4);
        put_le(&mut buf, file_position as u64, 4);
        assert(buf@ =~= entry_bytes((relative_offset, file_position)));
        self.entries.push((relative_offset, file_position));
        buf
    }

    /// Greatest entry with `relative_offset <= target`, if any.
    pub fn lookup(&self, target_relative_offset: u32) -> (r: Option<(u32, u32)>)
        requires
            rising(self@),
        ensures
            r == floor_entry(self@, target_relative_offset),
    {
        let mut low: usize = 0;
        let mut high: usize = self.entries.len();
        while low < high
            invariant
                rising(self@),
                low <= high <= self@.len(),
                forall|i: int| 0 <= i < low ==> self@[i].0 <= target_relative_offset,
                forall|i: int| high <= i < self@.len() ==> self@[i].0 > target_relative_offset,
            decreases high - low,
        {
            let mid: usize = low + (high - low) / 2;
            if self.entries[mid].0 <= target_relative_offset {
                low = mid + 1;
            } else {
                high = mid;
            }
        }
        proof {
            lemma_floor_entry(self@, target_relative_offset, low as int);
        }
        if low == 0 {
            None
        } else {
            Some(self.entries[low - 1])
        }
    }

    pub fn last(&self) -> (r: Option<(u32, u32)>)
        ensures
            r == (if self@.len() == 0 {
                None
            } else {
                Some(self@.last())
            }),
    {
        if self.entries.len() == 0 {
            None
        } else {
            Some(self.entries[self.entries.len() - 1])
        }
    }

    /// The bytes of an index file with these entries.
    pub fn to_bytes(&self) -> (out: Vec<u8>)
        ensures
            out@ == entries_bytes(self@),
    {
        let mut out: Vec<u8> = Vec::new();
        let mut i: usize = 0;
        while i < self.entries.len()
            invariant
                i <= self@.len(),
                out@ == entries_bytes(self@.take(i as int)),
            decreases self@.len() - i,
        {
            let ghost before = out@;
            let e: (u32, u32) = self.entries[i];
            put_le(&mut out, e.0 as u64, 4);
            put_le(&mut out, e.1 as u64, 4);
            assert(out@ =~= before + entry_bytes(e));
            i = i + 1;
            assert(self@.take(i as int).drop_last() =~= self@.take(i - 1));
        }
        assert(self@.take(i as int) =~= self@);
        out
    }
}

/// The last entry whose relative offset is at most `target`.
pub open spec fn floor_entry(es: Seq<(u32, u32)>, target: u32) -> Option<(u32, u32)>
    decreases es.len(),
{
    if es.len() == 0 {
        None
    } else if es.last().0 <= target {
        Some(es.last())
    } else {
        floor_entry(es.drop_last(), target)
    }
}

proof fn lemma_floor_entry(es: Seq<(u32, u32)>, target: u32, k: int)
    requires
        0 <= k <= es.len(),
        forall|i: int| 0 <= i < k ==> es[i].0 <= target,
        forall|i: int| k <= i < es.len() ==> es[i].0 > target,
    ensures
        floor_entry(es, target) == (if k == 0 {
            None
        } else {
            Some(es[k - 1])
        }),
    decreases es.len(),
{
    if es.len() > k {
        lemma_floor_entry(es.drop_last(), target, k);
    }
}

/// An index file that entries were written to loads as those entries.
pub proof fn law_index_roundtrip(es: Seq<(u32, u32)>)
    requires
        rising(es),
    ensures
        loaded(Some(entries_bytes(es))) == Some(es),
{
    lemma_entries_in(es);
}

proof fn lemma_entries_in(es: Seq<(u32, u32)>)
    ensures
        entries_bytes(es).len() == 8 * es.len(),
        entries_in(entries_bytes(es)) == es,
    decreases es.len(),
{
    let b = entries_bytes(es);
    if es.len() == 0 {
        assert(entries_in(b) =~= es);
    } else {
        let head = es.drop_last();
        let e = es.last();
        let hb = entries_bytes(head);
        lemma_entries_in(head);
        lemma_pow256_values();
        lemma_le_len(e.0 as nat, 4);
        lemma_le_len(e.1 as nat, 4);
        crate::codec::law_le_roundtrip(e.0 as nat, 4);
        crate::codec::law_le_roundtrip(e.1 as nat, 4);
        let n = head.len() as int;
        assert(b.subrange(8 * n, 8 * n + 4) =~= le(e.0 as nat, 4));
        assert(b.subrange(8 * n + 4, 8 * n + 8) =~= le(e.1 as nat, 4));
        assert forall|i: int| 0 <= i < es.len() implies entry_at(b, i) == es[i] by {
            if i < n {
                assert(b.subrange(8 * i, 8 * i + 4) =~= hb.subrange(8 * i, 8 * i + 4));
                assert(b.subrange(8 * i + 4, 8 * i + 8) =~= hb.subrange(8 * i + 4, 8 * i + 8));
                assert(entries_in(hb)[i] == head[i]);
            }
        }
        assert(entries_in(b) =~= es);
    }
}

} // verus!
