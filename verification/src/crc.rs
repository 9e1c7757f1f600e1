//! The CRC-32 checksum of bytes.

use vstd::prelude::*;

verus! {

/// One division step of CRC-32: the reflected IEEE polynomial is taken off where
/// the lowest bit is set.
pub open spec fn crc_step(x: u32) -> u32 {
    if x & 1 == 1 {
        (x >> 1) ^ 0xedb8_8320
    } else {
        x >> 1
    }
}

/// Eight division steps.
pub open spec fn crc_steps(x: u32) -> u32 {
    crc_step(crc_step(crc_step(crc_step(crc_step(crc_step(crc_step(crc_step(x))))))))
}

/// The remainder after bytes, from a start of all ones.
pub open spec fn crc_state(data: Seq<u8>) -> u32
    decreases data.len(),
{
    if data.len() == 0 {
        0xffff_ffff
    } else {
        crc_steps(crc_state(data.drop_last()) ^ data.last() as u32)
    }
}

/// The CRC-32 (IEEE) checksum of bytes: the remainder with its bits inverted.
#[verifier::opaque]
pub open spec fn crc32(data: Seq<u8>) -> u32 {
    crc_state(data) ^ 0xffff_ffff
}

/// `crc32fast::hash` computes the CRC-32 (IEEE) checksum of a byte slice.
pub assume_specification[ crc32fast::hash ](buf: &[u8]) -> (r: u32)
    ensures
        r == crc32(buf@),
;

proof fn lemma_step_apart(x: u32, y: u32)
    requires
        x != y,
    ensures
        crc_step(x) != crc_step(y),
{
    assert(x != y ==> (if x & 1 == 1 {
        (x >> 1) ^ 0xedb8_8320u32
    } else {
        x >> 1
    }) != (if y & 1 == 1 {
        (y >> 1) ^ 0xedb8_8320u32
    } else {
        y >> 1
    })) by (bit_vector);
}

proof fn lemma_steps_apart(x: u32, y: u32)
    requires
        x != y,
    ensures
        crc_steps(x) != crc_steps(y),
{
    lemma_step_apart(x, y);
    let (x1, y1) = (crc_step(x), crc_step(y));
    lemma_step_apart(x1, y1);
    let (x2, y2) = (crc_step(x1), crc_step(y1));
    lemma_step_apart(x2, y2);
    let (x3, y3) = (crc_step(x2), crc_step(y2));
    lemma_step_apart(x3, y3);
    let (x4, y4) = (crc_step(x3), crc_step(y3));
    lemma_step_apart(x4, y4);
    let (x5, y5) = (crc_step(x4), crc_step(y4));
    lemma_step_apart(x5, y5);
    let (x6, y6) = (crc_step(x5), crc_step(y5));
    lemma_step_apart(x6, y6);
    lemma_step_apart(crc_step(x6), crc_step(y6));
}

proof fn lemma_state_apart(data: Seq<u8>, i: int, b: u8)
    requires
        0 <= i < data.len(),
        data[i] != b,
    ensures
        crc_state(data.update(i, b)) != crc_state(data),
    decreases data.len(),
{
    let other = data.update(i, b);
    let (x, y) = (crc_state(data.drop_last()), crc_state(other.drop_last()));
    let (p, q) = (data.last(), other.last());
    if i == data.len() - 1 {
        assert(other.drop_last() =~= data.drop_last());
        assert(p != q ==> x ^ p as u32 != x ^ q as u32) by (bit_vector);
    } else {
        assert(other.drop_last() =~= data.drop_last().update(i, b));
        lemma_state_apart(data.drop_last(), i, b);
        assert(x != y ==> x ^ p as u32 != y ^ p as u32) by (bit_vector);
    }
    lemma_steps_apart(y ^ q as u32, x ^ p as u32);
}

/// Bytes of which one was changed have another checksum.
pub proof fn law_changed_byte(data: Seq<u8>, i: int, b: u8)
    requires
        0 <= i < data.len(),
        data[i] != b,
    ensures
        crc32(data.update(i, b)) != crc32(data),
{
    reveal(crc32);
    lemma_state_apart(data, i, b);
    let (x, y) = (crc_state(data), crc_state(data.update(i, b)));
    assert(x != y ==> x ^ 0xffff_ffffu32 != y ^ 0xffff_ffffu32) by (bit_vector);
}

} // verus!
