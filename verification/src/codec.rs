//! Fixed-width integers as byte sequences, in both byte orders.

use vstd::prelude::*;

verus! {

/// 256 to the power of `width`.
pub open spec fn pow256(width: nat) -> nat
    decreases width,
{
    if width == 0 {
        1
    } else {
        256 * pow256((width - 1) as nat)
    }
}

/// The `width` low-order bytes of `v`, least significant first.
pub open spec fn le(v: nat, width: nat) -> Seq<u8>
    decreases width,
{
    if width == 0 {
        Seq::empty()
    } else {
        seq![(v % 256) as u8] + le(v / 256, (width - 1) as nat)
    }
}

/// The number that `s` holds, least significant byte first.
pub open spec fn le_value(s: Seq<u8>) -> nat
    decreases s.len(),
{
    if s.len() == 0 {
        0
    } else {
        s[0] as nat + 256 * le_value(s.skip(1))
    }
}

/// The `width` low-order bytes of `v`, most significant first.
pub open spec fn be(v: nat, width: nat) -> Seq<u8>
    decreases width,
{
    if width == 0 {
        Seq::empty()
    } else {
        be(v / 256, (width - 1) as nat).push((v % 256) as u8)
    }
}

/// The number that `s` holds, most significant byte first.
pub open spec fn be_value(s: Seq<u8>) -> nat
    decreases s.len(),
{
    if s.len() == 0 {
        0
    } else {
        256 * be_value(s.drop_last()) + s.last() as nat
    }
}

/// The two's complement image of `v` in 32 bits.
pub open spec fn bits32(v: i32) -> nat {
    if v < 0 {
        (v + 0x1_0000_0000) as nat
    } else {
        v as nat
    }
}

/// The two's complement image of `v` in 64 bits.
pub open spec fn bits64(v: i64) -> nat {
    if v < 0 {
        (v + 0x1_0000_0000_0000_0000) as nat
    } else {
        v as nat
    }
}

/// The signed number that a 16-bit pattern stands for.
pub open spec fn signed16(n: nat) -> int {
    if n < 0x8000 {
        n as int
    } else {
        n - 0x1_0000
    }
}

/// The signed number whose two's complement image in 32 bits is `n`.
pub open spec fn signed32(n: nat) -> int {
    if n < 0x8000_0000 {
        n as int
    } else {
        n - 0x1_0000_0000
    }
}

/// The signed number whose two's complement image in 64 bits is `n`.
pub open spec fn signed64(n: nat) -> int {
    if n < 0x8000_0000_0000_0000 {
        n as int
    } else {
        n - 0x1_0000_0000_0000_0000
    }
}

/// The powers of 256 that the formats use.
pub proof fn lemma_pow256_values()
    ensures
        pow256(1) == 0x100,
        pow256(2) == 0x1_0000,
        pow256(4) == 0x1_0000_0000,
        pow256(8) == 0x1_0000_0000_0000_0000,
{
    reveal_with_fuel(pow256, 9);
}

pub proof fn lemma_pow256_positive(width: nat)
    ensures
        pow256(width) >= 1,
    decreases width,
{
    if width > 0 {
        lemma_pow256_positive((width - 1) as nat);
    }
}

pub proof fn lemma_pow256_monotonic(a: nat, b: nat)
    requires
        a <= b,
    ensures
        pow256(a) <= pow256(b),
    decreases b,
{
    if a < b {
        lemma_pow256_monotonic(a, (b - 1) as nat);
        lemma_pow256_positive((b - 1) as nat);
    }
}

pub proof fn lemma_le_len(v: nat, width: nat)
    ensures
        le(v, width).len() == width,
    decreases width,
{
    if width > 0 {
        lemma_le_len(v / 256, (width - 1) as nat);
    }
}

/// Reading back what was written gives the number, where it fits the width.
pub proof fn law_le_roundtrip(v: nat, width: nat)
    requires
        v < pow256(width),
    ensures
        le(v, width).len() == width,
        le_value(le(v, width)) == v,
    decreases width,
{
    lemma_le_len(v, width);
    if width > 0 {
        let tail = le(v / 256, (width - 1) as nat);
        law_le_roundtrip(v / 256, (width - 1) as nat);
        assert(le(v, width).skip(1) =~= tail);
    }
}

pub proof fn lemma_le_value_bound(s: Seq<u8>)
    ensures
        le_value(s) < pow256(s.len()),
    decreases s.len(),
{
    if s.len() > 0 {
        lemma_le_value_bound(s.skip(1));
    }
}

/// Writing the number that bytes hold gives the bytes.
pub proof fn law_le_bytes(s: Seq<u8>)
    ensures
        le(le_value(s), s.len()) == s,
    decreases s.len(),
{
    if s.len() > 0 {
        law_le_bytes(s.skip(1));
        let n = le_value(s);
        assert(n % 256 == s[0] as nat && n / 256 == le_value(s.skip(1)));
        assert(le(n, s.len()) =~= seq![s[0]] + s.skip(1));
        assert(seq![s[0]] + s.skip(1) =~= s);
    } else {
        assert(le(0, 0) =~= s);
    }
}

pub proof fn lemma_be_len(v: nat, width: nat)
    ensures
        be(v, width).len() == width,
    decreases width,
{
    if width > 0 {
        lemma_be_len(v / 256, (width - 1) as nat);
    }
}

/// Reading back what was written gives the number, where it fits the width.
pub proof fn law_be_roundtrip(v: nat, width: nat)
    requires
        v < pow256(width),
    ensures
        be(v, width).len() == width,
        be_value(be(v, width)) == v,
    decreases width,
{
    lemma_be_len(v, width);
    if width > 0 {
        let head = be(v / 256, (width - 1) as nat);
        law_be_roundtrip(v / 256, (width - 1) as nat);
        assert(be(v, width).drop_last() =~= head);
    }
}

pub proof fn lemma_be_value_bound(s: Seq<u8>)
    ensures
        be_value(s) < pow256(s.len()),
    decreases s.len(),
{
    if s.len() > 0 {
        lemma_be_value_bound(s.drop_last());
    }
}

/// Appends the `width` low-order bytes of `v`, least significant first.
pub fn put_le(out: &mut Vec<u8>, v: u64, width: usize)
    ensures
        final(out)@ == old(out)@ + le(v as nat, width as nat),
{
    let mut left: usize = width;
    let mut n: u64 = v;
    let ghost start = out@;
    while left > 0
        invariant
            left <= width,
            out@ + le(n as nat, left as nat) == start + le(v as nat, width as nat),
        decreases left,
    {
        let ghost before = out@;
        out.push((n % 256) as u8);
        proof {
            assert(out@ + le((n / 256) as nat, (left - 1) as nat) =~= before + le(
                n as nat,
                left as nat,
            ));
        }
        n = n / 256;
        left = left - 1;
    }
    assert(out@ =~= out@ + le(n as nat, 0));
}

/// The number that `s` holds, least significant byte first.
pub fn get_le(s: &[u8]) -> (v: u64)
    requires
        s@.len() <= 8,
    ensures
        v == le_value(s@),
{
    let mut i: usize = s.len();
    let mut v: u64 = 0;
    assert(s@.skip(i as int) =~= Seq::<u8>::empty());
    while i > 0
        invariant
            i <= s@.len() <= 8,
            v == le_value(s@.skip(i as int)),
        decreases i,
    {
        let ghost tail = s@.skip(i as int);
        let ghost longer = s@.skip(i - 1);
        proof {
            lemma_le_value_bound(longer);
            lemma_pow256_monotonic(longer.len(), 8);
            lemma_pow256_values();
            assert(longer.skip(1) =~= tail);
            assert(longer[0] == s@[i - 1]);
        }
        i = i - 1;
        v = v * 256 + s[i] as u64;
    }
    assert(s@.skip(0) =~= s@);
    v
}

/// Appends the `width` low-order bytes of `v`, most significant first.
pub fn put_be(out: &mut Vec<u8>, v: u64, width: usize)
    requires
        width <= 8,
    ensures
        final(out)@ == old(out)@ + be(v as nat, width as nat),
{
    let mut digits: Vec<u8> = Vec::new();
    let mut n: u64 = v;
    let mut i: usize = 0;
    assert(be(v as nat, width as nat) =~= be(v as nat, width as nat) + digits@.reverse());
    while i < width
        invariant
            i <= width,
            digits@.len() == i,
            be(v as nat, width as nat) == be(n as nat, (width - i) as nat) + digits@.reverse(),
        decreases width - i,
    {
        let ghost before = digits@;
        digits.push((n % 256) as u8);
        proof {
            assert(digits@.reverse() =~= seq![(n % 256) as u8] + before.reverse());
            assert(be((n / 256) as nat, (width - i - 1) as nat) + digits@.reverse() =~= be(
                n as nat,
                (width - i) as nat,
            ) + before.reverse());
        }
        n = n / 256;
        i = i + 1;
    }
    assert(be(v as nat, width as nat) =~= digits@.reverse());
    let ghost start = out@;
    let ghost whole = digits@.reverse();
    let mut left: usize = width;
    while left > 0
        invariant
            left <= width,
            digits@.len() == width,
            whole == digits@.reverse(),
            out@ == start + whole.take(width - left),
        decreases left,
    {
        left = left - 1;
        out.push(digits[left]);
        assert(whole.take(width - left) =~= whole.take(width - left - 1).push(
            digits@[left as int],
        ));
    }
    assert(whole.take(width as int) =~= whole);
}

/// The number that `s` holds, most significant byte first.
pub fn get_be(s: &[u8]) -> (v: u64)
    requires
        s@.len() <= 8,
    ensures
        v == be_value(s@),
{
    let mut i: usize = 0;
    let mut v: u64 = 0;
    while i < s.len()
        invariant
            i <= s@.len() <= 8,
            v == be_value(s@.take(i as int)),
        decreases s@.len() - i,
    {
        let ghost longer = s@.take(i + 1);
        proof {
            lemma_be_value_bound(longer);
            lemma_pow256_monotonic(longer.len(), 8);
            lemma_pow256_values();
            assert(longer.drop_last() =~= s@.take(i as int));
        }
        v = v * 256 + s[i] as u64;
        i = i + 1;
    }
    assert(s@.take(i as int) =~= s@);
    v
}

/// The two's complement image of `v`.
pub fn to_bits32(v: i32) -> (n: u32)
    ensures
        n == bits32(v),
{
    let n: u32 = v as u32;
    assert(v < 0 ==> (v as u32) == v + 0x1_0000_0000) by (bit_vector);
    assert(v >= 0 ==> (v as u32) == v) by (bit_vector);
    n
}

/// The two's complement image of `v`.
pub fn to_bits64(v: i64) -> (n: u64)
    ensures
        n == bits64(v),
{
    let n: u64 = v as u64;
    assert(v < 0 ==> (v as u64) == v + 0x1_0000_0000_0000_0000) by (bit_vector);
    assert(v >= 0 ==> (v as u64) == v) by (bit_vector);
    n
}

/// The signed number whose two's complement image is `n`.
pub fn from_bits32(n: u32) -> (v: i32)
    ensures
        v == signed32(n as nat),
        bits32(v) == n,
{
    let v: i32 = n as i32;
    assert(n < 0x8000_0000 ==> (n as i32) == n) by (bit_vector);
    assert(n >= 0x8000_0000 ==> (n as i32) == n - 0x1_0000_0000) by (bit_vector);
    v
}

/// The signed number whose two's complement image is `n`.
pub fn from_bits64(n: u64) -> (v: i64)
    ensures
        v == signed64(n as nat),
        bits64(v) == n,
{
    let v: i64 = n as i64;
    assert(n < 0x8000_0000_0000_0000 ==> (n as i64) == n) by (bit_vector);
    assert(n >= 0x8000_0000_0000_0000 ==> (n as i64) == n - 0x1_0000_0000_0000_0000)
        by (bit_vector);
    v
}

/// A length as far as 32 bits count.
pub open spec fn capped(n: nat) -> u32 {
    if n <= u32::MAX {
        n as u32
    } else {
        u32::MAX
    }
}

/// A length as far as 32 bits count.
pub fn capped32(n: usize) -> (r: u32)
    ensures
        r == capped(n as nat),
{
    if n as u64 <= u32::MAX as u64 {
        n as u32
    } else {
        u32::MAX
    }
}

/// The signed number that a 16-bit pattern stands for.
pub fn from_bits16(n: u16) -> (v: i16)
    ensures
        v == signed16(n as nat),
{
    if n < 0x8000 {
        n as i16
    } else {
        (n as i32 - 0x1_0000) as i16
    }
}

} // verus!
