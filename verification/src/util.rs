//! The arithmetic behind the entropy source: composing a big-endian word
//! from raw bytes and reducing it to a bounded draw.  Obtaining the bytes
//! themselves is the caller's business.

use vstd::prelude::*;

verus! {

/// The big-endian value of a byte sequence.
pub open spec fn be_value(bytes: Seq<u8>, k: int) -> int
    decreases k,
{
    if k <= 0 {
        0
    } else {
        be_value(bytes, k - 1) * 256 + bytes[k - 1]
    }
}

/// The big-endian value of a prefix is bounded by the size of the prefix.
proof fn lemma_be_value_bound(bytes: Seq<u8>, k: int)
    ensures
        0 <= be_value(bytes, k) < pow256(k),
    decreases k,
{
    if k <= 0 {
        assert(pow256(k) == 1);
    } else {
        lemma_be_value_bound(bytes, k - 1);
        assert(be_value(bytes, k - 1) * 256 <= (pow256(k - 1) - 1) * 256) by (nonlinear_arith)
            requires
                be_value(bytes, k - 1) <= pow256(k - 1) - 1,
        ;
    }
}

/// Powers of 256.
pub open spec fn pow256(k: int) -> int
    decreases k,
{
    if k <= 0 {
        1
    } else {
        pow256(k - 1) * 256
    }
}

/// Composes eight bytes into a 64-bit word, big-endian: the first byte is
/// the most significant.
pub fn compose_be_u64(buf: &[u8; 8]) -> (r: u64)
    ensures
        r as int == be_value(buf@, 8),
{
    let mut num: u64 = 0;
    let mut i: usize = 0;
    while i < 8
        invariant
            i <= 8,
            num as int == be_value(buf@, i as int),
            num < pow256(i as int),
        decreases 8 - i,
    {
        proof {
            lemma_be_value_bound(buf@, i + 1);
            lemma_pow256_8();
            assert(pow256(i as int) * 256 <= pow256(8)) by {
                lemma_pow256_le(i + 1, 8);
            }
        }
        num = num * 256 + (buf[i] as u64);
        i = i + 1;
    }
    num
}

/// The eighth power of 256 is the number of 64-bit words.
proof fn lemma_pow256_8()
    ensures
        pow256(8) == 0x1_0000_0000_0000_0000,
{
    assert(pow256(0) == 1);
    assert(pow256(1) == 256);
    assert(pow256(2) == 0x1_0000);
    assert(pow256(3) == 0x100_0000);
    assert(pow256(4) == 0x1_0000_0000);
    assert(pow256(5) == 0x100_0000_0000);
    assert(pow256(6) == 0x1_0000_0000_0000);
    assert(pow256(7) == 0x100_0000_0000_0000);
}

/// Powers of 256 grow with the exponent.
proof fn lemma_pow256_le(a: int, b: int)
    requires
        a <= b,
    ensures
        pow256(a) <= pow256(b),
    decreases b - a,
{
    if a < b {
        lemma_pow256_le(a, b - 1);
        lemma_pow256_pos(b - 1);
        assert(pow256(b - 1) <= pow256(b - 1) * 256) by (nonlinear_arith)
            requires
                pow256(b - 1) >= 1,
        ;
    }
}

/// Powers of 256 are positive.
proof fn lemma_pow256_pos(k: int)
    ensures
        pow256(k) >= 1,
    decreases k,
{
    if k > 0 {
        lemma_pow256_pos(k - 1);
    }
}

/// A uniform draw below `max`, from one word of entropy: the word reduced
/// modulo the bound.  A zero bound is a programming error, not an input:
/// it is excluded outright.
pub fn get_random_number_u8(raw: u64, max: u8) -> (r: u8)
    requires
        max > 0,
    ensures
        r as int == raw as int % max as int,
        r < max,
{
    (raw % (max as u64)) as u8
}

} // verus!
