//! Standard UTF-8 encoding and decoding of single code points.
use vstd::prelude::*;

verus! {

/// The standard UTF-8 bytes of `c`, as few as its code point needs.
pub open spec fn utf8_encode(c: char) -> Seq<u8> {
    let v = c as int;
    if v < 0x80 {
        seq![v as u8]
    } else if v < 0x800 {
        seq![(0xC0 + v / 64) as u8, (0x80 + v % 64) as u8]
    } else if v < 0x10000 {
        seq![(0xE0 + v / 4096) as u8, (0x80 + (v / 64) % 64) as u8, (0x80 + v % 64) as u8]
    } else {
        seq![
            (0xF0 + v / 262144) as u8,
            (0x80 + (v / 4096) % 64) as u8,
            (0x80 + (v / 64) % 64) as u8,
            (0x80 + v % 64) as u8,
        ]
    }
}

/// How many bytes a sequence led by `b` has: `0xxxxxxx` one, `110xxxxx` two,
/// `1110xxxx` three, `11110xxx` four; zero where `b` cannot lead.
pub open spec fn lead_len(b: u8) -> int {
    if b < 0x80 {
        1
    } else if 0xC0 <= b < 0xE0 {
        2
    } else if 0xE0 <= b < 0xF0 {
        3
    } else if 0xF0 <= b < 0xF8 {
        4
    } else {
        0
    }
}

/// Whether `g` is the UTF-8 encoding of some character.
pub open spec fn is_utf8_of_char(g: Seq<u8>) -> bool {
    exists|c: char| utf8_encode(c) == g
}

/// The character whose UTF-8 encoding is `g`.
pub open spec fn char_of_utf8(g: Seq<u8>) -> char {
    choose|c: char| utf8_encode(c) == g
}

/// Whether `b` is a continuation byte `10xxxxxx`.
pub open spec fn is_continuation(b: u8) -> bool {
    0x80 <= b < 0xC0
}

/// The payload bits of a group led by a byte of `lead_len(g[0]) == g.len()`.
pub open spec fn group_value(g: Seq<u8>) -> int {
    if g.len() == 1 {
        g[0] as int
    } else if g.len() == 2 {
        (g[0] - 0xC0) * 64 + (g[1] - 0x80)
    } else if g.len() == 3 {
        ((g[0] - 0xE0) * 64 + (g[1] - 0x80)) * 64 + (g[2] - 0x80)
    } else {
        (((g[0] - 0xF0) * 64 + (g[1] - 0x80)) * 64 + (g[2] - 0x80)) * 64 + (g[3] - 0x80)
    }
}

/// Whether a group of bytes, whose lead announces its length, is a shortest
/// encoding of a Unicode scalar value.
pub open spec fn group_is_valid(g: Seq<u8>) -> bool {
    let v = group_value(g);
    &&& 1 <= g.len() <= 4
    &&& lead_len(g[0]) == g.len()
    &&& forall|i: int| 1 <= i < g.len() ==> is_continuation(#[trigger] g[i])
    &&& if g.len() == 1 {
        true
    } else if g.len() == 2 {
        v >= 0x80
    } else if g.len() == 3 {
        v >= 0x800 && !(0xD800 <= v <= 0xDFFF)
    } else {
        0x10000 <= v <= 0x10FFFF
    }
}

/// Whether `v` is a Unicode scalar value.
pub open spec fn is_scalar_value(v: u32) -> bool {
    v <= 0x10FFFF && !(0xD800 <= v <= 0xDFFF)
}

/// The encoding of `c` is a valid group carrying `c`'s code point.
pub proof fn lemma_encode_valid(c: char)
    ensures
        group_is_valid(utf8_encode(c)),
        group_value(utf8_encode(c)) == c as int,
        lead_len(utf8_encode(c)[0]) == utf8_encode(c).len(),
{
    let v = c as int;
    assert(0 <= v <= 0x10FFFF && !(0xD800 <= v <= 0xDFFF));
    let g = utf8_encode(c);
    if v < 0x80 {
    } else if v < 0x800 {
        assert(v == (v / 64) * 64 + v % 64);
    } else if v < 0x10000 {
        assert(v / 64 == (v / 4096) * 64 + (v / 64) % 64);
        assert(v == (v / 64) * 64 + v % 64);
    } else {
        assert(v / 4096 == (v / 262144) * 64 + (v / 4096) % 64);
        assert(v / 64 == (v / 4096) * 64 + (v / 64) % 64);
        assert(v == (v / 64) * 64 + v % 64);
    }
}

/// A valid group is the encoding of the character that carries its value.
pub proof fn lemma_valid_group_encodes(g: Seq<u8>, c: char)
    requires
        group_is_valid(g),
        c as int == group_value(g),
    ensures
        utf8_encode(c) == g,
{
    let v = c as int;
    if g.len() == 1 {
        assert(utf8_encode(c) =~= g);
    } else if g.len() == 2 {
        assert(is_continuation(g[1]));
        let x0 = g[0] - 0xC0;
        let x1 = g[1] - 0x80;
        assert(v / 64 == x0 && v % 64 == x1);
        assert(utf8_encode(c) =~= g);
    } else if g.len() == 3 {
        assert(is_continuation(g[1]) && is_continuation(g[2]));
        let x0 = g[0] - 0xE0;
        let x1 = g[1] - 0x80;
        let x2 = g[2] - 0x80;
        assert(v / 64 == x0 * 64 + x1 && v % 64 == x2);
        assert(v / 4096 == x0 && (v / 64) % 64 == x1);
        assert(utf8_encode(c) =~= g);
    } else {
        assert(is_continuation(g[1]) && is_continuation(g[2]) && is_continuation(g[3]));
        let x0 = g[0] - 0xF0;
        let x1 = g[1] - 0x80;
        let x2 = g[2] - 0x80;
        let x3 = g[3] - 0x80;
        assert(v / 64 == (x0 * 64 + x1) * 64 + x2 && v % 64 == x3);
        assert(v / 4096 == x0 * 64 + x1 && (v / 64) % 64 == x2);
        assert(v / 262144 == x0 && (v / 4096) % 64 == x1);
        assert(utf8_encode(c) =~= g);
    }
}

/// Decoding the encoding of `c` gives `c` back.
pub proof fn lemma_utf8_round_trip(c: char)
    ensures
        is_utf8_of_char(utf8_encode(c)),
        char_of_utf8(utf8_encode(c)) == c,
{
    let g = utf8_encode(c);
    assert(is_utf8_of_char(g));
    let d = char_of_utf8(g);
    lemma_encode_valid(c);
    lemma_encode_valid(d);
    assert(d as int == c as int);
}

/// A group is the encoding of a character exactly when it is valid.
pub proof fn lemma_utf8_of_char_iff_valid(g: Seq<u8>)
    ensures
        is_utf8_of_char(g) ==> group_is_valid(g) && group_value(g) == char_of_utf8(g) as int,
{
    if is_utf8_of_char(g) {
        lemma_encode_valid(char_of_utf8(g));
    }
}

/// Relies on `char::from_u32`: `Some` exactly for Unicode scalar values,
/// holding the character of that value.
#[verifier::external_body]
fn char_from_u32(v: u32) -> (r: Option<char>)
    ensures
        r is Some <==> is_scalar_value(v),
        r matches Some(c) ==> c as int == v as int,
{
    char::from_u32(v)
}

/// The number of bytes announced by the lead byte `b`; zero where `b` cannot
/// lead a sequence.
pub fn utf8_lead_len(b: u8) -> (r: usize)
    ensures
        r as int == lead_len(b),
{
    if b < 0x80 {
        1
    } else if 0xC0 <= b && b < 0xE0 {
        2
    } else if 0xE0 <= b && b < 0xF0 {
        3
    } else if 0xF0 <= b && b < 0xF8 {
        4
    } else {
        0
    }
}

/// Appends the UTF-8 encoding of `c` to `out`.
pub fn push_utf8(c: char, out: &mut Vec<u8>)
    ensures
        final(out)@ == old(out)@ + utf8_encode(c),
{
    let v: u32 = c as u32;
    let ghost start = old(out)@;
    if v < 0x80 {
        out.push(v as u8);
    } else if v < 0x800 {
        out.push((0xC0 + v / 64) as u8);
        out.push((0x80 + v % 64) as u8);
    } else if v < 0x10000 {
        out.push((0xE0 + v / 4096) as u8);
        out.push((0x80 + (v / 64) % 64) as u8);
        out.push((0x80 + v % 64) as u8);
    } else {
        proof {
            assert(v <= 0x10FFFF);
        }
        out.push((0xF0 + v / 262144) as u8);
        out.push((0x80 + (v / 4096) % 64) as u8);
        out.push((0x80 + (v / 64) % 64) as u8);
        out.push((0x80 + v % 64) as u8);
    }
    assert(out@ =~= start + utf8_encode(c));
}

/// Decodes the `n` bytes of `bytes` from `pos`, `n` being the length that the
/// lead byte announces: the character they encode, or `None` where they encode
/// none (a bad continuation byte, an overlong form, a surrogate, a value past
/// the Unicode range).
pub fn decode_utf8_group(bytes: &[u8], pos: usize, n: usize) -> (r: Option<char>)
    requires
        pos < bytes@.len(),
        n == lead_len(bytes@[pos as int]),
        1 <= n,
        pos + n <= bytes@.len(),
    ensures
        ({
            let g = bytes@.subrange(pos as int, pos + n);
            r == if is_utf8_of_char(g) {
                Some(char_of_utf8(g))
            } else {
                None::<char>
            }
        }),
{
    let ghost g = bytes@.subrange(pos as int, pos + n);
    let len = bytes.len();
    let b0 = bytes[pos] as u32;
    let mut conts_ok = true;
    let mut i: usize = 1;
    while i < n
        invariant
            1 <= i <= n <= 4,
            len == bytes@.len(),
            pos + n <= len,
            g == bytes@.subrange(pos as int, pos + n),
            conts_ok <==> forall|k: int| 1 <= k < i ==> is_continuation(#[trigger] g[k]),
        decreases n - i,
    {
        assert(g[i as int] == bytes@[pos + i]);
        let b = bytes[pos + i];
        if !(0x80 <= b && b < 0xC0) {
            conts_ok = false;
        }
        i = i + 1;
    }
    if !conts_ok {
        proof {
            lemma_utf8_of_char_iff_valid(g);
        }
        return None;
    }
    assert(forall|k: int| 0 <= k < n ==> g[k] == bytes@[pos + k]);
    assert(n >= 2 ==> is_continuation(g[1]));
    assert(n >= 3 ==> is_continuation(g[2]));
    assert(n >= 4 ==> is_continuation(g[3]));
    let v: u32 = if n == 1 {
        b0
    } else if n == 2 {
        let b1 = bytes[pos + 1] as u32;
        (b0 - 0xC0) * 64 + (b1 - 0x80)
    } else if n == 3 {
        let b1 = bytes[pos + 1] as u32;
        let b2 = bytes[pos + 2] as u32;
        ((b0 - 0xE0) * 64 + (b1 - 0x80)) * 64 + (b2 - 0x80)
    } else {
        let b1 = bytes[pos + 1] as u32;
        let b2 = bytes[pos + 2] as u32;
        let b3 = bytes[pos + 3] as u32;
        (((b0 - 0xF0) * 64 + (b1 - 0x80)) * 64 + (b2 - 0x80)) * 64 + (b3 - 0x80)
    };
    assert(v as int == group_value(g));
    let in_range = if n == 1 {
        true
    } else if n == 2 {
        v >= 0x80
    } else if n == 3 {
        v >= 0x800 && !(0xD800 <= v && v <= 0xDFFF)
    } else {
        0x10000 <= v && v <= 0x10FFFF
    };
    proof {
        lemma_utf8_of_char_iff_valid(g);
    }
    if !in_range {
        return None;
    }
    assert(group_is_valid(g));
    match char_from_u32(v) {
        Some(c) => {
            proof {
                assert(c as int == v as int);
                lemma_valid_group_encodes(g, c);
                lemma_utf8_round_trip(c);
            }
            Some(c)
        },
        None => None,
    }
}

} // verus!
