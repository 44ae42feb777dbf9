//! The font data model, its encoder and its decoder.
use crate::bits::{fit_pixels, fitted, pack, pack_pixels, packed_len, unpack, unpack_pixels};
use crate::checksum::{checksum, three_byte_checksum};
use crate::utf8::{
    char_of_utf8, decode_utf8_group, is_utf8_of_char, lead_len, push_utf8, utf8_encode,
    utf8_lead_len,
};
use vstd::prelude::*;

verus! {

/// First byte of the file signature (`f`).
pub const MAGIC_0: u8 = 102;

/// Second byte of the file signature (`s`).
pub const MAGIC_1: u8 = 115;

/// Third byte of the file signature (`F`).
pub const MAGIC_2: u8 = 70;

/// Offset of the three checksum bytes in an encoded font.
pub const CHECKSUM_OFFSET: usize = 5;

/// Offset of the first character record in an encoded font.
pub const RECORDS_OFFSET: usize = 8;

/// The file format version.
#[derive(Clone, Copy, Debug, PartialEq, Eq, Structural)]
pub enum FormatVersion {
    FV0000,
}

/// Which of a character's two dimensions is fixed for the whole font.
#[derive(Clone, Copy, Debug, PartialEq, Eq, Structural)]
pub enum Alignment {
    Height,
    Width,
}

/// Why a buffer could not be decoded.
#[derive(Clone, Copy, Debug, PartialEq, Eq, Structural)]
pub enum DecodeError {
    /// The first three bytes are not the file signature.
    BadSignature,
    /// The buffer ends in the middle of the header or of a character record.
    Truncated,
    /// The version bits of the flags byte name no known format version.
    UnsupportedVersion,
    /// A character record does not start with a valid UTF-8 encoded character.
    InvalidCodePoint,
}

/// A character bitmap: `width * height` pixels, row-major. Pixels past that
/// count are ignored. An inferred bitmap has no dimensions yet; they are set
/// when its character is added to a font.
#[derive(Clone, Debug)]
pub struct Bitmap {
    pub width: u8,
    pub height: u8,
    pub data: Vec<bool>,
    inferred: bool,
}

/// The abstract value of a [`Bitmap`].
pub struct BitmapView {
    pub width: u8,
    pub height: u8,
    pub data: Seq<bool>,
    pub inferred: bool,
}

impl View for Bitmap {
    type V = BitmapView;

    closed spec fn view(&self) -> BitmapView {
        BitmapView {
            width: self.width,
            height: self.height,
            data: self.data@,
            inferred: self.inferred,
        }
    }
}

/// A character of the font: its code point, its extent along the axis that
/// the font does not fix, and its bitmap.
#[derive(Clone, Debug)]
pub struct Character {
    pub utf8: char,
    pub size: u8,
    pub bitmap: Bitmap,
}

/// The abstract value of a [`Character`].
pub struct CharacterView {
    pub utf8: char,
    pub size: u8,
    pub bitmap: BitmapView,
}

impl View for Character {
    type V = CharacterView;

    open spec fn view(&self) -> CharacterView {
        CharacterView { utf8: self.utf8, size: self.size, bitmap: self.bitmap@ }
    }
}

/// A pixel font: a version, an alignment, the size shared by all characters
/// along the aligned axis, and its characters in insertion order.
#[derive(Debug)]
pub struct SimplePixelFont {
    pub version: FormatVersion,
    pub alignment: Alignment,
    pub size: u8,
    pub characters: Vec<Character>,
}

/// The abstract value of a [`SimplePixelFont`].
pub struct FontView {
    pub version: FormatVersion,
    pub alignment: Alignment,
    pub size: u8,
    pub characters: Seq<CharacterView>,
}

/// The views of a sequence of characters.
pub open spec fn character_views(cs: Seq<Character>) -> Seq<CharacterView> {
    cs.map_values(|c: Character| c@)
}

impl View for SimplePixelFont {
    type V = FontView;

    open spec fn view(&self) -> FontView {
        FontView {
            version: self.version,
            alignment: self.alignment,
            size: self.size,
            characters: character_views(self.characters@),
        }
    }
}

/// The character that adding `c` to `font` stores: under height alignment an
/// inferred bitmap gets the font's size as height and its pixel count divided by
/// that size as width, which is also the character's size.
pub open spec fn materialized(font: FontView, c: CharacterView) -> CharacterView {
    let width = (c.bitmap.data.len() / (font.size as nat)) as u8;
    CharacterView {
        utf8: c.utf8,
        size: width,
        bitmap: BitmapView { width, height: font.size, data: c.bitmap.data, inferred: false },
    }
}

/// Whether adding `c` to `font` stores a character: only inferred bitmaps
/// under height alignment are taken.
pub open spec fn is_accepted(font: FontView, c: CharacterView) -> bool {
    c.bitmap.inferred && font.alignment == Alignment::Height
}

/// The font after adding `c`.
pub open spec fn with_character(font: FontView, c: CharacterView) -> FontView {
    if is_accepted(font, c) {
        FontView { characters: font.characters.push(materialized(font, c)), ..font }
    } else {
        font
    }
}

/// The flags byte: bit 0 set for width alignment, version bits clear.
pub open spec fn flags_byte(a: Alignment) -> u8 {
    if a == Alignment::Width {
        1
    } else {
        0
    }
}

/// The pixels of a bitmap that are encoded: exactly `width * height`, those
/// past its data clear, those past that count left out.
pub open spec fn encoded_pixels(b: BitmapView) -> Seq<bool> {
    fitted(b.data, (b.width as int * b.height as int) as nat)
}

/// The bytes of one character record: its UTF-8 bytes, its size, and its
/// `width * height` pixels packed.
pub open spec fn record_bytes(c: CharacterView) -> Seq<u8> {
    utf8_encode(c.utf8) + seq![c.size] + pack(encoded_pixels(c.bitmap))
}

/// The bytes of a sequence of character records.
pub open spec fn records_bytes(cs: Seq<CharacterView>) -> Seq<u8>
    decreases cs.len(),
{
    if cs.len() == 0 {
        seq![]
    } else {
        records_bytes(cs.drop_last()) + record_bytes(cs.last())
    }
}

/// The signature, flags and size bytes.
pub open spec fn header_bytes(f: FontView) -> Seq<u8> {
    seq![MAGIC_0, MAGIC_1, MAGIC_2, flags_byte(f.alignment), f.size]
}

/// The encoded font without its checksum.
pub open spec fn body_bytes(f: FontView) -> Seq<u8> {
    header_bytes(f) + records_bytes(f.characters)
}

/// The encoded font: the checksum of the body inserted after its header.
pub open spec fn encode(f: FontView) -> Seq<u8> {
    let b = body_bytes(f);
    b.take(5) + checksum(b) + b.skip(5)
}

/// The width and height of a decoded bitmap: the font fixes the height under
/// height alignment and the width under width alignment; the character's size
/// gives the other one.
pub open spec fn bitmap_dims(a: Alignment, font_size: u8, char_size: u8) -> (u8, u8) {
    if a == Alignment::Height {
        (char_size, font_size)
    } else {
        (font_size, char_size)
    }
}

/// Decodes the character record at the start of `b`: the character and the
/// number of bytes it takes.
pub open spec fn parse_record(b: Seq<u8>, a: Alignment, font_size: u8) -> Result<
    (CharacterView, int),
    DecodeError,
> {
    let n = lead_len(b[0]);
    if n == 0 {
        Err(DecodeError::InvalidCodePoint)
    } else if b.len() < n {
        Err(DecodeError::Truncated)
    } else if !is_utf8_of_char(b.take(n)) {
        Err(DecodeError::InvalidCodePoint)
    } else if b.len() < n + 1 {
        Err(DecodeError::Truncated)
    } else {
        let size = b[n];
        let (w, h) = bitmap_dims(a, font_size, size);
        let pixels = w as int * h as int;
        let used = n + 1 + packed_len(pixels);
        if b.len() < used {
            Err(DecodeError::Truncated)
        } else {
            let data = unpack(b.subrange(n + 1, used), pixels as nat);
            Ok(
                (
                    CharacterView {
                        utf8: char_of_utf8(b.take(n)),
                        size,
                        bitmap: BitmapView { width: w, height: h, data, inferred: false },
                    },
                    used,
                ),
            )
        }
    }
}

/// `done` followed by the characters of `rest`, or the error of `rest`.
pub open spec fn prepend(done: Seq<CharacterView>, rest: Result<Seq<CharacterView>, DecodeError>) -> Result<
    Seq<CharacterView>,
    DecodeError,
> {
    match rest {
        Ok(cs) => Ok(done + cs),
        Err(e) => Err(e),
    }
}

/// Decodes the character records that fill `b`.
pub open spec fn parse_records(b: Seq<u8>, a: Alignment, font_size: u8) -> Result<
    Seq<CharacterView>,
    DecodeError,
>
    decreases b.len(),
{
    if b.len() == 0 {
        Ok(seq![])
    } else {
        match parse_record(b, a, font_size) {
            Err(e) => Err(e),
            Ok((c, used)) => prepend(seq![c], parse_records(b.skip(used), a, font_size)),
        }
    }
}

/// Whether `b` starts with the file signature.
pub open spec fn has_signature(b: Seq<u8>) -> bool {
    b.len() >= 3 && b[0] == MAGIC_0 && b[1] == MAGIC_1 && b[2] == MAGIC_2
}

/// The alignment that a flags byte selects.
pub open spec fn alignment_of_flags(flags: u8) -> Alignment {
    if flags % 2 == 1 {
        Alignment::Width
    } else {
        Alignment::Height
    }
}

/// Decodes an encoded font, its checksum bytes skipped and not checked.
pub open spec fn parse(b: Seq<u8>) -> Result<FontView, DecodeError> {
    if !has_signature(b) {
        Err(DecodeError::BadSignature)
    } else if b.len() < 8 {
        Err(DecodeError::Truncated)
    } else if b[3] / 8 != 0 {
        Err(DecodeError::UnsupportedVersion)
    } else {
        let a = alignment_of_flags(b[3]);
        match parse_records(b.skip(8), a, b[4]) {
            Ok(cs) => Ok(
                FontView { version: FormatVersion::FV0000, alignment: a, size: b[4], characters: cs },
            ),
            Err(e) => Err(e),
        }
    }
}

/// The buffer without its three checksum bytes.
pub open spec fn strip_checksum(b: Seq<u8>) -> Seq<u8> {
    b.take(5) + b.skip(8)
}

/// Whether the checksum bytes of `b` are the checksum of the rest of it.
pub open spec fn checksum_matches(b: Seq<u8>) -> bool {
    b.len() >= 8 && b.subrange(5, 8) == checksum(strip_checksum(b))
}

impl Bitmap {
    /// A bitmap of the given dimensions.
    pub fn new(width: u8, height: u8, data: Vec<bool>) -> (r: Self)
        ensures
            r@ == (BitmapView { width, height, data: data@, inferred: false }),
    {
        Self { width: width, height: height, data: data, inferred: false }
    }

    /// A bitmap whose dimensions are left to the font it is added to.
    pub fn inferred(data: &[bool]) -> (r: Self)
        ensures
            r@ == (BitmapView { width: 0, height: 0, data: data@, inferred: true }),
    {
        Self { width: 0, height: 0, data: vstd::slice::slice_to_vec(data), inferred: true }
    }

    /// Whether the bitmap's dimensions are still to be inferred.
    pub fn is_inferred(&self) -> (r: bool)
        ensures
            r == self@.inferred,
    {
        self.inferred
    }

    /// The packed bytes of its `width * height` pixels, as a character record
    /// holds them.
    pub fn packed_pixels(&self) -> (r: Vec<u8>)
        ensures
            r@ == pack(encoded_pixels(self@)),
    {
        assert(self.width as int * self.height as int <= 255 * 255) by (nonlinear_arith)
            requires
                self.width <= 255,
                self.height <= 255,
        ;
        let n = self.width as usize * self.height as usize;
        let pixels = fit_pixels(self.data.as_slice(), n);
        pack_pixels(pixels.as_slice())
    }

    /// The packed bytes of the pixel data, eight pixels a byte, the last byte
    /// padded with clear bits.
    pub fn segment_into_u8s(&self) -> (r: Vec<u8>)
        ensures
            r@ == pack(self@.data),
            r@.len() == packed_len(self@.data.len() as int),
    {
        pack_pixels(self.data.as_slice())
    }
}

impl Character {
    /// A character with the given size and bitmap.
    pub fn new(utf8: char, size: u8, bitmap: Bitmap) -> (r: Self)
        ensures
            r@ == (CharacterView { utf8, size, bitmap: bitmap@ }),
    {
        Self { utf8: utf8, size: size, bitmap: bitmap }
    }

    /// A character whose size is left to the font it is added to; its bitmap
    /// must be inferred.
    pub fn inferred(utf8: char, bitmap: Bitmap) -> (r: Self)
        requires
            bitmap@.inferred,
        ensures
            r@ == (CharacterView { utf8, size: 0, bitmap: bitmap@ }),
    {
        Self { utf8: utf8, size: 0, bitmap: bitmap }
    }
}

impl SimplePixelFont {
    /// An empty font.
    pub fn new(format_version: FormatVersion, alignment: Alignment, size: u8) -> (r: Self)
        ensures
            r@ == (FontView { version: format_version, alignment, size, characters: seq![] }),
    {
        let r = Self {
            version: format_version,
            alignment: alignment,
            size: size,
            characters: Vec::new(),
        };
        assert(r@.characters =~= seq![]);
        r
    }

    /// Adds a character with an inferred bitmap to a height-aligned font, its
    /// width derived from its pixel count; any other character is left out.
    pub fn add_character(&mut self, character: Character)
        requires
            is_accepted(old(self)@, character@) ==> old(self).size > 0
                && character@.bitmap.data.len() / (old(self).size as nat) <= 255,
        ensures
            final(self)@ == with_character(old(self)@, character@),
    {
        if character.bitmap.is_inferred() {
            if let Alignment::Height = self.alignment {
                let width = (character.bitmap.data.len() / self.size as usize) as u8;
                let size = self.size;
                let c = Character::new(
                    character.utf8,
                    width,
                    Bitmap::new(width, size, character.bitmap.data),
                );
                self.characters.push(c);
                assert(self@.characters =~= with_character(old(self)@, character@).characters);
            }
        }
    }

    /// Encodes the font: header, checksum, then one record per character.
    pub fn to_vec_u8(&self) -> (r: Vec<u8>)
        ensures
            r@ == encode(self@),
    {
        let mut buffer: Vec<u8> = Vec::new();
        buffer.push(MAGIC_0);
        buffer.push(MAGIC_1);
        buffer.push(MAGIC_2);
        let flags: u8 = match self.alignment {
            Alignment::Width => 1,
            Alignment::Height => 0,
        };
        buffer.push(flags);
        buffer.push(self.size);
        let ghost cs = self@.characters;
        assert(buffer@ =~= header_bytes(self@) + records_bytes(cs.take(0)));
        let mut i: usize = 0;
        while i < self.characters.len()
            invariant
                i <= self.characters@.len(),
                cs == character_views(self.characters@),
                buffer@ == header_bytes(self@) + records_bytes(cs.take(i as int)),
            decreases self.characters@.len() - i,
        {
            let character = &self.characters[i];
            let ghost before = buffer@;
            push_utf8(character.utf8, &mut buffer);
            buffer.push(character.size);
            let mut packed = character.bitmap.packed_pixels();
            buffer.append(&mut packed);
            assert(cs.take(i + 1).drop_last() =~= cs.take(i as int));
            assert(cs[i as int] == character@);
            assert(buffer@ =~= before + record_bytes(character@));
            i = i + 1;
        }
        assert(cs.take(i as int) =~= cs);
        let ghost body = buffer@;
        assert(body == body_bytes(self@));
        let sum = three_byte_checksum(buffer.as_slice());
        buffer.insert(CHECKSUM_OFFSET, sum[0]);
        buffer.insert(CHECKSUM_OFFSET + 1, sum[1]);
        buffer.insert(CHECKSUM_OFFSET + 2, sum[2]);
        assert(buffer@ =~= encode(self@));
        buffer
    }
}

/// Decodes the character record of `buffer` at `pos`: the character and the
/// position after it.
fn read_record(buffer: &[u8], pos: usize, alignment: Alignment, font_size: u8) -> (r: Result<
    (Character, usize),
    DecodeError,
>)
    requires
        pos < buffer@.len(),
    ensures
        ({
            let expected = parse_record(buffer@.skip(pos as int), alignment, font_size);
            match r {
                Ok((c, next)) => pos < next <= buffer@.len() && expected == Ok::<
                    (CharacterView, int),
                    DecodeError,
                >((c@, next - pos)),
                Err(e) => expected == Err::<(CharacterView, int), DecodeError>(e),
            }
        }),
{
    let ghost b = buffer@.skip(pos as int);
    let len = buffer.len();
    let n = utf8_lead_len(buffer[pos]);
    if n == 0 {
        return Err(DecodeError::InvalidCodePoint);
    }
    if len - pos < n {
        return Err(DecodeError::Truncated);
    }
    assert(b.take(n as int) =~= buffer@.subrange(pos as int, pos + n));
    let utf8 = match decode_utf8_group(buffer, pos, n) {
        Some(c) => c,
        None => {
            return Err(DecodeError::InvalidCodePoint);
        },
    };
    if len - pos - n < 1 {
        return Err(DecodeError::Truncated);
    }
    let size = buffer[pos + n];
    let (width, height) = match alignment {
        Alignment::Height => (size, font_size),
        Alignment::Width => (font_size, size),
    };
    assert(width as int * height as int <= 255 * 255) by (nonlinear_arith)
        requires
            width <= 255,
            height <= 255,
    ;
    let pixels = width as usize * height as usize;
    let bytes_used = (pixels + 7) / 8;
    if len - pos - n - 1 < bytes_used {
        return Err(DecodeError::Truncated);
    }
    let start = pos + n + 1;
    let next = start + bytes_used;
    let data = unpack_pixels(&buffer[start..next], pixels);
    assert(buffer@.subrange(start as int, next as int) =~= b.subrange(n + 1, next - pos));
    let c = Character {
        utf8: utf8,
        size: size,
        bitmap: Bitmap { width: width, height: height, data: data, inferred: false },
    };
    Ok((c, next))
}

impl SimplePixelFont {
    /// Decodes an encoded font without checking its checksum; the error says
    /// why a buffer is not one.
    pub fn try_from_vec_u8(buffer: &[u8]) -> (r: Result<Self, DecodeError>)
        ensures
            !has_signature(buffer@) ==> r == Err::<Self, DecodeError>(DecodeError::BadSignature),
            match r {
                Ok(f) => parse(buffer@) == Ok::<FontView, DecodeError>(f@),
                Err(e) => parse(buffer@) == Err::<FontView, DecodeError>(e),
            },
    {
        let len = buffer.len();
        if len < 3 || buffer[0] != MAGIC_0 || buffer[1] != MAGIC_1 || buffer[2] != MAGIC_2 {
            return Err(DecodeError::BadSignature);
        }
        if len < RECORDS_OFFSET {
            return Err(DecodeError::Truncated);
        }
        let flags = buffer[3];
        if flags / 8 != 0 {
            return Err(DecodeError::UnsupportedVersion);
        }
        let alignment = if flags % 2 == 1 {
            Alignment::Width
        } else {
            Alignment::Height
        };
        let size = buffer[4];
        let ghost all = buffer@.skip(8);
        let mut characters: Vec<Character> = Vec::new();
        let mut pos: usize = RECORDS_OFFSET;
        assert(buffer@.skip(pos as int) =~= all);
        assert(prepend(seq![], parse_records(all, alignment, size)) =~= parse_records(
            all,
            alignment,
            size,
        )) by {
            match parse_records(all, alignment, size) {
                Ok(cs) => {
                    assert(seq![] + cs =~= cs);
                },
                Err(_) => {},
            }
        }
        while pos < len
            invariant
                RECORDS_OFFSET <= pos <= len,
                len == buffer@.len(),
                has_signature(buffer@),
                buffer@[3] / 8 == 0,
                alignment == alignment_of_flags(buffer@[3]),
                size == buffer@[4],
                all == buffer@.skip(8),
                parse_records(all, alignment, size) == prepend(
                    character_views(characters@),
                    parse_records(buffer@.skip(pos as int), alignment, size),
                ),
            decreases len - pos,
        {
            let ghost rest = buffer@.skip(pos as int);
            match read_record(buffer, pos, alignment, size) {
                Ok((c, next)) => {
                    let ghost done = character_views(characters@);
                    assert(rest.skip(next - pos) =~= buffer@.skip(next as int));
                    characters.push(c);
                    assert(character_views(characters@) =~= done + seq![c@]);
                    proof {
                        match parse_records(buffer@.skip(next as int), alignment, size) {
                            Ok(cs) => {
                                assert(done + (seq![c@] + cs) =~= (done + seq![c@]) + cs);
                            },
                            Err(_) => {},
                        }
                    }
                    pos = next;
                },
                Err(e) => {
                    assert(parse_records(rest, alignment, size) == Err::<
                        Seq<CharacterView>,
                        DecodeError,
                    >(e));
                    return Err(e);
                },
            }
        }
        assert(buffer@.skip(pos as int) =~= seq![]);
        assert(character_views(characters@) + seq![] =~= character_views(characters@));
        Ok(SimplePixelFont { version: FormatVersion::FV0000, alignment, size, characters })
    }

    /// Decodes an encoded font without checking its checksum. The buffer must
    /// be a well-formed encoding.
    pub fn unchecked_from_vec_u8(buffer: Vec<u8>) -> (r: Self)
        requires
            parse(buffer@) is Ok,
        ensures
            parse(buffer@) == Ok::<FontView, DecodeError>(r@),
    {
        match Self::try_from_vec_u8(buffer.as_slice()) {
            Ok(f) => f,
            Err(_) => {
                assert(false);
                Self::new(FormatVersion::FV0000, Alignment::Height, 0)
            },
        }
    }

    /// Whether the checksum stored in `buffer` is the checksum of the rest of it.
    pub fn has_valid_checksum(buffer: &[u8]) -> (r: bool)
        ensures
            r == checksum_matches(buffer@),
    {
        if buffer.len() < RECORDS_OFFSET {
            return false;
        }
        let mut local = vstd::slice::slice_to_vec(buffer);
        let c0 = local.remove(CHECKSUM_OFFSET);
        let c1 = local.remove(CHECKSUM_OFFSET);
        let c2 = local.remove(CHECKSUM_OFFSET);
        assert(local@ =~= strip_checksum(buffer@));
        let sum = three_byte_checksum(local.as_slice());
        let r = c0 == sum[0] && c1 == sum[1] && c2 == sum[2];
        assert(r ==> buffer@.subrange(5, 8) =~= checksum(strip_checksum(buffer@)));
        r
    }

    /// Decodes an encoded font whose checksum matches; `None` where it does not.
    /// A buffer whose checksum matches must be a well-formed encoding.
    pub fn from_vec_u8(buffer: Vec<u8>) -> (r: Option<Self>)
        requires
            checksum_matches(buffer@) ==> parse(buffer@) is Ok,
        ensures
            r is Some <==> checksum_matches(buffer@),
            r matches Some(f) ==> parse(buffer@) == Ok::<FontView, DecodeError>(f@),
    {
        if !Self::has_valid_checksum(buffer.as_slice()) {
            return None;
        }
        Some(Self::unchecked_from_vec_u8(buffer))
    }
}

} // verus!
