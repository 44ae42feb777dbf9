//! Bit-level packing of pixel sequences into bytes.
//!
//! Pixel `k` of a group of eight lands in bit `k` of its byte, bit 0 being the
//! least significant one.
use vstd::prelude::*;

verus! {

/// Two to the power `n`.
pub open spec fn two_to(n: nat) -> int
    decreases n,
{
    if n == 0 {
        1
    } else {
        2 * two_to((n - 1) as nat)
    }
}

/// `b` shifted right by `j` bits.
pub open spec fn shr(b: int, j: nat) -> int
    decreases j,
{
    if j == 0 {
        b
    } else {
        shr(b, (j - 1) as nat) / 2
    }
}

/// Bit `j` of `b` (bit 0 is the least significant).
pub open spec fn bit_at(b: int, j: nat) -> bool {
    shr(b, j) % 2 == 1
}

/// The value of a bit group whose first element is bit 0.
pub open spec fn value_of_bits(bits: Seq<bool>) -> int
    decreases bits.len(),
{
    if bits.len() == 0 {
        0
    } else {
        (if bits[0] {
            1int
        } else {
            0int
        }) + 2 * value_of_bits(bits.drop_first())
    }
}

/// Number of bytes that `n` pixels occupy once packed.
pub open spec fn packed_len(n: int) -> int {
    (n + 7) / 8
}

/// The `i`-th group of at most eight pixels.
pub open spec fn pixel_group(pixels: Seq<bool>, i: int) -> Seq<bool> {
    let hi = if 8 * i + 8 <= pixels.len() {
        8 * i + 8
    } else {
        pixels.len() as int
    };
    pixels.subrange(8 * i, hi)
}

/// The packed form of a pixel sequence: one byte per group of eight, the unused
/// high bits of the last byte clear.
pub open spec fn pack(pixels: Seq<bool>) -> Seq<u8> {
    Seq::new(packed_len(pixels.len() as int) as nat, |i: int| value_of_bits(pixel_group(pixels, i)) as u8)
}

/// The first `n` pixels of `pixels`, with clear pixels past its end.
pub open spec fn fitted(pixels: Seq<bool>, n: nat) -> Seq<bool> {
    Seq::new(n, |k: int| k < pixels.len() && pixels[k])
}

/// The first `n` pixels held by packed bytes; padding bits past `n` are dropped.
pub open spec fn unpack(bytes: Seq<u8>, n: nat) -> Seq<bool> {
    Seq::new(n, |k: int| bit_at(bytes[k / 8] as int, (k % 8) as nat))
}

pub proof fn lemma_shr_succ(x: int, j: nat)
    ensures
        shr(x, j + 1) == shr(x / 2, j),
    decreases j,
{
    if j > 0 {
        lemma_shr_succ(x, (j - 1) as nat);
        assert(shr(x, j + 1) == shr(x, j) / 2);
        assert(shr(x / 2, j) == shr(x / 2, (j - 1) as nat) / 2);
    } else {
        assert(shr(x, 1) == shr(x, 0) / 2);
    }
}

pub proof fn lemma_value_of_bits_bound(bits: Seq<bool>)
    ensures
        0 <= value_of_bits(bits) < two_to(bits.len()),
    decreases bits.len(),
{
    if bits.len() > 0 {
        lemma_value_of_bits_bound(bits.drop_first());
    }
}

pub proof fn lemma_two_to_byte(n: nat)
    requires
        n <= 8,
    ensures
        two_to(n) <= 256,
    decreases 8 - n,
{
    if n < 8 {
        lemma_two_to_byte(n + 1);
    } else {
        reveal_with_fuel(two_to, 9);
    }
}

/// Reading bit `j` of a packed group gives back pixel `j`.
pub proof fn lemma_bit_of_value(bits: Seq<bool>, j: nat)
    requires
        j < bits.len(),
    ensures
        bit_at(value_of_bits(bits), j) == bits[j as int],
    decreases j,
{
    let v = value_of_bits(bits);
    let rest = bits.drop_first();
    lemma_value_of_bits_bound(rest);
    assert(v / 2 == value_of_bits(rest));
    if j > 0 {
        lemma_bit_of_value(rest, (j - 1) as nat);
        lemma_shr_succ(v, (j - 1) as nat);
    }
}

/// Packing and then unpacking as many pixels as were packed gives the pixels back.
pub proof fn lemma_unpack_pack(pixels: Seq<bool>)
    ensures
        pack(pixels).len() == packed_len(pixels.len() as int),
        unpack(pack(pixels), pixels.len()) == pixels,
{
    let packed = pack(pixels);
    assert forall|k: int| 0 <= k < pixels.len() implies #[trigger] unpack(packed, pixels.len())[k]
        == pixels[k] by {
        let g = k / 8;
        let group = pixel_group(pixels, g);
        lemma_value_of_bits_bound(group);
        lemma_two_to_byte(group.len());
        assert(packed[g] as int == value_of_bits(group));
        lemma_bit_of_value(group, (k % 8) as nat);
    }
    assert(unpack(packed, pixels.len()) =~= pixels);
}

/// The byte value of the bits `lo..hi` of `pixels`.
fn group_value(pixels: &[bool], lo: usize, hi: usize) -> (r: u8)
    requires
        lo <= hi <= pixels@.len(),
        hi - lo <= 8,
    ensures
        r as int == value_of_bits(pixels@.subrange(lo as int, hi as int)),
{
    let mut acc: u32 = 0;
    let mut k: usize = hi;
    proof {
        lemma_two_to_byte((hi - lo) as nat);
    }
    while k > lo
        invariant
            lo <= k <= hi <= pixels@.len(),
            hi - lo <= 8,
            two_to((hi - lo) as nat) <= 256,
            acc as int == value_of_bits(pixels@.subrange(k as int, hi as int)),
        decreases k - lo,
    {
        let ghost tail = pixels@.subrange(k as int, hi as int);
        proof {
            lemma_value_of_bits_bound(tail);
            lemma_two_to_byte((hi - k + 1) as nat);
        }
        k = k - 1;
        let ghost s = pixels@.subrange(k as int, hi as int);
        assert(s.drop_first() =~= tail);
        acc = acc * 2 + if pixels[k] {
            1
        } else {
            0
        };
    }
    proof {
        lemma_value_of_bits_bound(pixels@.subrange(lo as int, hi as int));
    }
    acc as u8
}

/// Bit `j` of `b`.
fn bit_of_byte(b: u8, j: usize) -> (r: bool)
    requires
        j < 8,
    ensures
        r == bit_at(b as int, j as nat),
{
    let mut cur: u8 = b;
    let mut t: usize = 0;
    while t < j
        invariant
            t <= j < 8,
            cur as int == shr(b as int, t as nat),
        decreases j - t,
    {
        cur = cur / 2;
        t = t + 1;
    }
    cur % 2 == 1
}

/// Packs `pixels` into bytes, eight pixels a byte, the last byte padded with
/// clear bits.
pub fn pack_pixels(pixels: &[bool]) -> (r: Vec<u8>)
    ensures
        r@ == pack(pixels@),
        r@.len() == packed_len(pixels@.len() as int),
{
    let n = pixels.len();
    let count: usize = n / 8 + if n % 8 == 0 {
        0
    } else {
        1
    };
    assert(count == packed_len(n as int));
    let mut out: Vec<u8> = Vec::new();
    let mut g: usize = 0;
    while g < count
        invariant
            n == pixels@.len(),
            count == packed_len(n as int),
            g <= count,
            out@.len() == g,
            forall|j: int| 0 <= j < g ==> out@[j] == pack(pixels@)[j],
        decreases count - g,
    {
        let lo = 8 * g;
        let hi: usize = if n - lo >= 8 {
            lo + 8
        } else {
            n
        };
        let b = group_value(pixels, lo, hi);
        assert(pixel_group(pixels@, g as int) == pixels@.subrange(lo as int, hi as int));
        out.push(b);
        g = g + 1;
    }
    assert(out@ =~= pack(pixels@));
    out
}

/// The first `n` pixels of `pixels`, with clear pixels past its end.
pub fn fit_pixels(pixels: &[bool], n: usize) -> (r: Vec<bool>)
    ensures
        r@ == fitted(pixels@, n as nat),
{
    let mut out: Vec<bool> = Vec::new();
    let mut k: usize = 0;
    while k < n
        invariant
            k <= n,
            out@ =~= fitted(pixels@, k as nat),
        decreases n - k,
    {
        let p = k < pixels.len() && pixels[k];
        out.push(p);
        k = k + 1;
        assert(out@ =~= fitted(pixels@, k as nat));
    }
    out
}

/// Expands `bytes` into their first `n` bits, bit 0 of each byte first.
pub fn unpack_pixels(bytes: &[u8], n: usize) -> (r: Vec<bool>)
    requires
        n <= 8 * bytes@.len(),
    ensures
        r@ == unpack(bytes@, n as nat),
{
    let mut out: Vec<bool> = Vec::new();
    let mut k: usize = 0;
    while k < n
        invariant
            n <= 8 * bytes@.len(),
            k <= n,
            out@ =~= unpack(bytes@, k as nat),
        decreases n - k,
    {
        let bit = bit_of_byte(bytes[k / 8], k % 8);
        out.push(bit);
        k = k + 1;
        assert(out@ =~= unpack(bytes@, k as nat));
    }
    out
}

} // verus!
