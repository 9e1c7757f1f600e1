//! Workload adapters: how the harness puts ids into values.
//!
//! The contract the checker verifies is stated in terms of what clients saw,
//! so the only thing an adapter owes the harness is honest bookkeeping: an id
//! counts as *acked* only when the client library reported success at the
//! requested ack level, and a reader reports exactly the `(offset, id)` pairs
//! it received, in the order it received them.

use crate::codec::{get_le, law_le_roundtrip, le, le_value, lemma_pow256_values, put_le};
use crate::text::{quoted, quoted_text, same_text};
use vstd::prelude::*;
use vstd::slice::*;
use vstd::string::*;

verus! {

/// Ack level of a produce, in each system's own vocabulary.
#[derive(Clone, Copy, Debug, PartialEq, Eq, Structural)]
pub enum AckLevel {
    /// replog `Acks::Written` / Kafka `acks=1`: the leader alone has it.
    /// Outside the durability contract — used only as a sensitivity control.
    LeaderOnly,
    /// replog `Acks::All` / Kafka `acks=all`: the contract-level ack.
    All,
}

/// The level that a text names.
pub open spec fn level_of(s: Seq<char>) -> Result<AckLevel, Seq<char>> {
    if s == "1"@ || s == "leader"@ || s == "acks=1"@ {
        Ok(AckLevel::LeaderOnly)
    } else if s == "all"@ || s == "acks=all"@ {
        Ok(AckLevel::All)
    } else {
        Err("unknown ack level "@ + quoted_text(s) + " (1|all)"@)
    }
}

impl AckLevel {
    pub open spec fn label(self) -> Seq<char> {
        match self {
            AckLevel::LeaderOnly => "acks=1"@,
            AckLevel::All => "acks=all"@,
        }
    }

    pub fn name(self) -> (r: &'static str)
        ensures
            r@ == self.label(),
    {
        match self {
            AckLevel::LeaderOnly => "acks=1",
            AckLevel::All => "acks=all",
        }
    }

    pub fn parse(s: &str) -> (r: Result<AckLevel, String>)
        ensures
            match level_of(s@) {
                Ok(l) => r == Ok::<AckLevel, String>(l),
                Err(text) => r is Err && r->Err_0@ == text,
            },
    {
        if same_text(s, "1") || same_text(s, "leader") || same_text(s, "acks=1") {
            return Ok(AckLevel::LeaderOnly);
        }
        if same_text(s, "all") || same_text(s, "acks=all") {
            return Ok(AckLevel::All);
        }
        let mut text: String = "unknown ack level ".to_owned();
        text.append(quoted(s).as_str());
        text.append(" (1|all)");
        Err(text)
    }
}

/// A level's name names it.
pub proof fn law_level_named(l: AckLevel)
    ensures
        level_of(l.label()) == Ok::<AckLevel, Seq<char>>(l),
{
    reveal_strlit("1");
    reveal_strlit("leader");
    reveal_strlit("acks=1");
    reveal_strlit("all");
    reveal_strlit("acks=all");
    assert("acks=all"@.len() != "acks=1"@.len());
    assert("acks=all"@.len() != "leader"@.len());
}

/// A value of `len` bytes for an id.
pub open spec fn value_of(id: u64, len: nat) -> Seq<u8> {
    le(id as nat, 8) + Seq::new(
        if len < 8 {
            0
        } else {
            (len - 8) as nat
        },
        |i: int| 0u8,
    )
}

/// Value layout shared by every adapter: the id in the first 8 bytes, little
/// endian, zero padding up to `value_bytes`.
pub fn encode_value(id: u64, value_bytes: usize) -> (v: Vec<u8>)
    ensures
        v@ == value_of(id, value_bytes as nat),
{
    let mut v: Vec<u8> = Vec::new();
    put_le(&mut v, id, 8);
    let ghost lead = le(id as nat, 8);
    let mut n: usize = 8;
    proof {
        crate::codec::lemma_le_len(id as nat, 8);
        assert(v@ =~= lead + Seq::new(0, |i: int| 0u8));
    }
    while n < value_bytes
        invariant
            8 <= n,
            n <= value_bytes || n == 8,
            v@ == lead + Seq::new((n - 8) as nat, |i: int| 0u8),
        decreases value_bytes - n,
    {
        v.push(0);
        assert(v@ =~= lead + Seq::new((n + 1 - 8) as nat, |i: int| 0u8));
        n += 1;
    }
    v
}

/// The id in a value, if it is long enough for one.
pub fn decode_id(value: &[u8]) -> (r: Option<u64>)
    ensures
        r == (if value@.len() < 8 {
            None
        } else {
            Some(le_value(value@.take(8)) as u64)
        }),
{
    if value.len() < 8 {
        return None;
    }
    let head: &[u8] = slice_subrange(value, 0, 8);
    proof {
        lemma_pow256_values();
        crate::codec::lemma_le_value_bound(head@);
        assert(head@ =~= value@.take(8));
    }
    Some(get_le(head))
}

/// A value holds its id.
pub proof fn law_value_roundtrip(id: u64, len: nat)
    ensures
        value_of(id, len).len() >= 8,
        le_value(value_of(id, len).take(8)) == id,
{
    lemma_pow256_values();
    law_le_roundtrip(id as nat, 8);
    assert(value_of(id, len).take(8) =~= le(id as nat, 8));
}

} // verus!
