//! What holds between the encoder and the decoder.
use crate::bits::{lemma_unpack_pack, pack, packed_len};
use crate::checksum::{checksum, lemma_checksum_detects_change};
use crate::font::{
    alignment_of_flags, bitmap_dims, body_bytes, checksum_matches, encode, encoded_pixels,
    flags_byte, header_bytes, is_accepted, materialized, parse, parse_record, parse_records,
    record_bytes, records_bytes, strip_checksum, with_character, Alignment, BitmapView,
    CharacterView, DecodeError, FontView, FormatVersion, MAGIC_0, MAGIC_1, MAGIC_2,
};
use crate::utf8::{lemma_encode_valid, lemma_utf8_round_trip, utf8_encode};
use vstd::prelude::*;

verus! {

/// Whether `c` agrees with a font of alignment `a` and size `font_size`: its
/// bitmap is concrete and has the dimensions that the decoder derives from the
/// font and the character's size.
pub open spec fn fits_font(c: CharacterView, a: Alignment, font_size: u8) -> bool {
    &&& !c.bitmap.inferred
    &&& bitmap_dims(a, font_size, c.size) == (c.bitmap.width, c.bitmap.height)
}

/// Whether every character of `f` agrees with its alignment and size.
pub open spec fn is_consistent(f: FontView) -> bool {
    &&& f.version == FormatVersion::FV0000
    &&& forall|i: int|
        0 <= i < f.characters.len() ==> fits_font(#[trigger] f.characters[i], f.alignment, f.size)
}

/// The character as the file holds it: exactly `width * height` pixels.
pub open spec fn normalized_character(c: CharacterView) -> CharacterView {
    CharacterView { bitmap: BitmapView { data: encoded_pixels(c.bitmap), ..c.bitmap }, ..c }
}

/// The font as the file holds it: each bitmap cut or padded to
/// `width * height` pixels.
pub open spec fn normalized(f: FontView) -> FontView {
    FontView { characters: f.characters.map_values(|c: CharacterView| normalized_character(c)), ..f }
}

/// A font fresh from `new` is consistent.
pub proof fn lemma_new_font_consistent(a: Alignment, size: u8)
    ensures
        is_consistent(FontView { version: FormatVersion::FV0000, alignment: a, size, characters: seq![] }),
{
}

/// Adding a character to a consistent font, under the conditions that
/// `add_character` asks for, keeps it consistent; a stored character keeps
/// the first `width * height` of its pixels once encoded.
pub proof fn lemma_insertion_keeps_consistent(f: FontView, c: CharacterView)
    requires
        is_consistent(f),
        is_accepted(f, c) ==> f.size > 0 && c.bitmap.data.len() / (f.size as nat) <= 255,
    ensures
        is_consistent(with_character(f, c)),
        is_accepted(f, c) ==> normalized_character(materialized(f, c)).bitmap.data
            == c.bitmap.data.take(materialized(f, c).size as int * f.size as int),
{
    let g = with_character(f, c);
    if is_accepted(f, c) {
        let m = materialized(f, c);
        let n = c.bitmap.data.len();
        let s = f.size as nat;
        assert(m.size as int * s as int <= n) by {
            vstd::arithmetic::div_mod::lemma_fundamental_div_mod(n as int, s as int);
            assert(m.size as int == n / s);
            assert((n / s) * s == s * (n / s)) by (nonlinear_arith);
        }
        assert(fits_font(m, f.alignment, f.size));
        assert(encoded_pixels(m.bitmap) =~= c.bitmap.data.take(m.size as int * f.size as int));
        assert forall|i: int| 0 <= i < g.characters.len() implies fits_font(
            #[trigger] g.characters[i],
            g.alignment,
            g.size,
        ) by {
            if i < f.characters.len() {
                assert(g.characters[i] == f.characters[i]);
            }
        }
    }
}

/// The records of a non-empty sequence are the first character's record
/// followed by the records of the others.
pub proof fn lemma_records_front(cs: Seq<CharacterView>)
    requires
        cs.len() > 0,
    ensures
        records_bytes(cs) == record_bytes(cs[0]) + records_bytes(cs.drop_first()),
    decreases cs.len(),
{
    if cs.len() == 1 {
        assert(cs.drop_last() =~= seq![]);
        assert(cs.drop_first() =~= seq![]);
        assert(records_bytes(cs.drop_last()) == Seq::<u8>::empty());
        assert(cs.last() == cs[0]);
        assert(records_bytes(cs) =~= record_bytes(cs[0]));
        assert(records_bytes(cs.drop_first()) =~= seq![]);
        assert(record_bytes(cs[0]) + seq![] =~= record_bytes(cs[0]));
    } else {
        let dl = cs.drop_last();
        lemma_records_front(dl);
        assert(dl.drop_first() =~= cs.drop_first().drop_last());
        assert(cs.drop_first().last() == cs.last());
        assert(records_bytes(cs) =~= record_bytes(cs[0]) + records_bytes(cs.drop_first()));
    }
}

/// Decoding a record gives back its character, its bitmap holding exactly the
/// `width * height` pixels that were packed, whatever follows the record.
pub proof fn lemma_parse_record_of_encoding(
    c: CharacterView,
    a: Alignment,
    font_size: u8,
    rest: Seq<u8>,
)
    requires
        fits_font(c, a, font_size),
    ensures
        parse_record(record_bytes(c) + rest, a, font_size) == Ok::<(CharacterView, int), DecodeError>(
            (normalized_character(c), record_bytes(c).len() as int),
        ),
{
    let b = record_bytes(c) + rest;
    let g = utf8_encode(c.utf8);
    let n = g.len() as int;
    lemma_encode_valid(c.utf8);
    lemma_utf8_round_trip(c.utf8);
    let pixels = encoded_pixels(c.bitmap);
    lemma_unpack_pack(pixels);
    let used = n + 1 + packed_len(pixels.len() as int);
    assert(b == g + seq![c.size] + pack(pixels) + rest);
    assert(b.take(n) =~= g);
    assert(b[0] == g[0]);
    assert(b[n] == c.size);
    assert(b.subrange(n + 1, used) =~= pack(pixels));
}

/// Decoding the records of consistent characters gives the characters back,
/// each with exactly `width * height` pixels.
pub proof fn lemma_parse_records_round_trip(cs: Seq<CharacterView>, a: Alignment, font_size: u8)
    requires
        forall|i: int| 0 <= i < cs.len() ==> fits_font(#[trigger] cs[i], a, font_size),
    ensures
        parse_records(records_bytes(cs), a, font_size) == Ok::<Seq<CharacterView>, DecodeError>(
            cs.map_values(|c: CharacterView| normalized_character(c)),
        ),
    decreases cs.len(),
{
    let b = records_bytes(cs);
    if cs.len() == 0 {
        assert(cs.map_values(|c: CharacterView| normalized_character(c)) =~= seq![]);
    } else {
        lemma_records_front(cs);
        let c = cs[0];
        let rest = cs.drop_first();
        assert(fits_font(c, a, font_size));
        lemma_parse_record_of_encoding(c, a, font_size, records_bytes(rest));
        assert(b.skip(record_bytes(c).len() as int) =~= records_bytes(rest));
        assert forall|i: int| 0 <= i < rest.len() implies fits_font(#[trigger] rest[i], a, font_size) by {
            assert(rest[i] == cs[i + 1]);
        }
        lemma_parse_records_round_trip(rest, a, font_size);
        assert(seq![normalized_character(c)] + rest.map_values(
            |c: CharacterView| normalized_character(c),
        ) =~= cs.map_values(|c: CharacterView| normalized_character(c)));
    }
}

/// Where the parts of an encoded font stand.
pub proof fn lemma_encode_layout(f: FontView)
    ensures
        encode(f).len() >= 8,
        encode(f).take(5) == header_bytes(f),
        encode(f).subrange(5, 8) == checksum(body_bytes(f)),
        encode(f).skip(8) == records_bytes(f.characters),
        strip_checksum(encode(f)) == body_bytes(f),
{
    let e = encode(f);
    let body = body_bytes(f);
    let recs = records_bytes(f.characters);
    assert(body == header_bytes(f) + recs);
    assert(e.take(5) =~= header_bytes(f));
    assert(strip_checksum(e) =~= body);
    assert(e.subrange(5, 8) =~= checksum(body));
    assert(e.skip(8) =~= recs);
}

/// Round trip: the encoding of a consistent font (every font built by `new`
/// and `add_character` is one) has a matching checksum and decodes to the same
/// font, each bitmap holding exactly its `width * height` pixels.
pub proof fn lemma_round_trip(f: FontView)
    requires
        is_consistent(f),
    ensures
        checksum_matches(encode(f)),
        parse(encode(f)) == Ok::<FontView, DecodeError>(normalized(f)),
{
    let e = encode(f);
    lemma_encode_layout(f);
    assert(e[0] == e.take(5)[0] && e[1] == e.take(5)[1] && e[2] == e.take(5)[2]);
    assert(e[3] == e.take(5)[3] && e[4] == e.take(5)[4]);
    assert(e[3] == flags_byte(f.alignment));
    assert(alignment_of_flags(e[3]) == f.alignment);
    lemma_parse_records_round_trip(f.characters, f.alignment, f.size);
}

/// Changing any single byte of an encoded font, checksum bytes included, makes
/// its checksum fail to match.
pub proof fn lemma_single_byte_change_detected(f: FontView, i: int, v: u8)
    requires
        0 <= i < encode(f).len(),
        v != encode(f)[i],
    ensures
        !checksum_matches(encode(f).update(i, v)),
{
    let e = encode(f);
    let body = body_bytes(f);
    let changed = e.update(i, v);
    lemma_encode_layout(f);
    if 5 <= i < 8 {
        assert(strip_checksum(changed) =~= body);
        assert(changed.subrange(5, 8)[i - 5] != e.subrange(5, 8)[i - 5]);
    } else {
        let j = if i < 5 {
            i
        } else {
            i - 3
        };
        assert(changed.subrange(5, 8) =~= checksum(body));
        assert(strip_checksum(changed) =~= body.update(j, v));
        lemma_checksum_detects_change(body, j, v);
    }
}

/// A buffer that does not start with the file signature is refused as such,
/// whatever follows.
pub proof fn lemma_signature_rejection(b: Seq<u8>)
    requires
        b.len() < 3 || b.take(3) != seq![MAGIC_0, MAGIC_1, MAGIC_2],
    ensures
        parse(b) == Err::<FontView, DecodeError>(DecodeError::BadSignature),
{
    if b.len() >= 3 && b[0] == MAGIC_0 && b[1] == MAGIC_1 && b[2] == MAGIC_2 {
        assert(b.take(3) =~= seq![MAGIC_0, MAGIC_1, MAGIC_2]);
    }
}

} // verus!
