//! The 24-bit integrity digest stored in a font file's header.
//!
//! Two running sums modulo 4096 are kept: the sum of the bytes, and the sum of
//! the first one after each byte. The digest is the second sum followed by the
//! first, as three big-endian bytes.
use vstd::arithmetic::div_mod::lemma_add_mod_noop;
use vstd::prelude::*;

verus! {

/// Modulus of both running sums.
pub const SUM_MODULUS: u32 = 4096;

/// Sum of all bytes of `s`.
pub open spec fn byte_sum(s: Seq<u8>) -> int
    decreases s.len(),
{
    if s.len() == 0 {
        0
    } else {
        byte_sum(s.drop_last()) + s.last()
    }
}

/// The first running sum.
pub open spec fn low_sum(s: Seq<u8>) -> int {
    byte_sum(s) % (SUM_MODULUS as int)
}

/// The second running sum: the first one accumulated over every prefix.
pub open spec fn high_sum(s: Seq<u8>) -> int
    decreases s.len(),
{
    if s.len() == 0 {
        0
    } else {
        (high_sum(s.drop_last()) + low_sum(s)) % (SUM_MODULUS as int)
    }
}

/// The three digest bytes of `s`.
pub open spec fn checksum(s: Seq<u8>) -> Seq<u8> {
    let a = low_sum(s);
    let b = high_sum(s);
    seq![(b / 16) as u8, ((b % 16) * 16 + a / 256) as u8, (a % 256) as u8]
}

/// Changing one byte changes the byte sum by the difference.
pub proof fn lemma_byte_sum_update(s: Seq<u8>, j: int, v: u8)
    requires
        0 <= j < s.len(),
    ensures
        byte_sum(s.update(j, v)) == byte_sum(s) - s[j] + v,
    decreases s.len(),
{
    let t = s.update(j, v);
    if j == s.len() - 1 {
        assert(t.drop_last() =~= s.drop_last());
    } else {
        assert(t.drop_last() =~= s.drop_last().update(j, v));
        lemma_byte_sum_update(s.drop_last(), j, v);
    }
}

/// Changing any single byte changes the digest.
pub proof fn lemma_checksum_detects_change(s: Seq<u8>, j: int, v: u8)
    requires
        0 <= j < s.len(),
        v != s[j],
    ensures
        checksum(s.update(j, v)) != checksum(s),
{
    let t = s.update(j, v);
    lemma_byte_sum_update(s, j, v);
    let x = byte_sum(s);
    let y = byte_sum(t);
    let d = y - x;
    assert(-256 < d < 256 && d != 0);
    let q = x / 4096;
    let r = y / 4096;
    assert(x == 4096 * q + low_sum(s));
    assert(y == 4096 * r + low_sum(t));
    if low_sum(s) == low_sum(t) {
        assert(d == 4096 * (r - q));
        if r - q >= 1 {
        } else if r - q <= -1 {
        } else {
        }
        assert(false);
    }
    let a = low_sum(s);
    let a2 = low_sum(t);
    let b = high_sum(s);
    let b2 = high_sum(t);
    assert(0 <= a < 4096 && 0 <= a2 < 4096);
    if checksum(t) == checksum(s) {
        assert(checksum(t)[1] == checksum(s)[1]);
        assert(checksum(t)[2] == checksum(s)[2]);
        assert(((b % 16) * 16 + a / 256) % 16 == a / 256);
        assert(((b2 % 16) * 16 + a2 / 256) % 16 == a2 / 256);
        assert(a == (a / 256) * 256 + a % 256);
        assert(a2 == (a2 / 256) * 256 + a2 % 256);
    }
}

/// Computes the digest of `bytes`.
pub fn three_byte_checksum(bytes: &[u8]) -> (r: [u8; 3])
    ensures
        r@ == checksum(bytes@),
{
    let mut a: u32 = 0;
    let mut b: u32 = 0;
    let mut i: usize = 0;
    while i < bytes.len()
        invariant
            i <= bytes@.len(),
            a as int == low_sum(bytes@.take(i as int)),
            b as int == high_sum(bytes@.take(i as int)),
        decreases bytes@.len() - i,
    {
        let ghost prev = bytes@.take(i as int);
        let ghost next = bytes@.take(i + 1);
        assert(next.drop_last() =~= prev);
        proof {
            lemma_add_mod_noop(byte_sum(prev), bytes@[i as int] as int, 4096);
            lemma_add_mod_noop(b as int, low_sum(next), 4096);
        }
        a = (a + bytes[i] as u32) % SUM_MODULUS;
        b = (b + a) % SUM_MODULUS;
        i = i + 1;
    }
    assert(bytes@.take(i as int) =~= bytes@);
    let r = [(b / 16) as u8, ((b % 16) * 16 + a / 256) as u8, (a % 256) as u8];
    assert(r@ =~= checksum(bytes@));
    r
}

} // verus!
