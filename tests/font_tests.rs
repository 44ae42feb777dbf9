use spf::bits::{pack_pixels, unpack_pixels};
use spf::checksum::three_byte_checksum;
use spf::utf8::{decode_utf8_group, push_utf8, utf8_lead_len};
use spf::{Alignment, Bitmap, Character, DecodeError, FormatVersion, SimplePixelFont};

fn pixels(s: &str) -> Vec<bool> {
    s.chars().map(|c| c == '1').collect()
}

fn height_font(size: u8) -> SimplePixelFont {
    SimplePixelFont::new(FormatVersion::FV0000, Alignment::Height, size)
}

fn add(font: &mut SimplePixelFont, c: char, px: &str) {
    let data = pixels(px);
    font.add_character(Character::inferred(c, Bitmap::inferred(&data)));
}

#[test]
fn encode_single_o_scenario() {
    let mut font = height_font(4);
    add(&mut font, 'o', "1111100110011111");
    let bytes = font.to_vec_u8();
    assert_eq!(bytes, vec![102, 115, 70, 0, 4, 210, 179, 46, 0x6F, 0x04, 159, 249]);
    assert_eq!(&bytes[8..10], &[0x6F, 0x04]);
    assert_eq!(bytes.len() - 10, 2);

    let decoded = SimplePixelFont::from_vec_u8(bytes).expect("checksum matches");
    assert!(matches!(decoded.alignment, Alignment::Height));
    assert!(matches!(decoded.version, FormatVersion::FV0000));
    assert_eq!(decoded.size, 4);
    assert_eq!(decoded.characters.len(), 1);
    let c = &decoded.characters[0];
    assert_eq!(c.utf8, 'o');
    assert_eq!(c.size, 4);
    assert_eq!(c.bitmap.width, 4);
    assert_eq!(c.bitmap.height, 4);
    assert_eq!(c.bitmap.data, pixels("1111100110011111"));
    assert!(!c.bitmap.is_inferred());
}

#[test]
fn round_trip_of_several_characters() {
    let mut font = height_font(4);
    add(&mut font, 'o', "1111100110011111");
    add(&mut font, 'w', "10101101011010111111");
    add(&mut font, 'i', "1011");
    let bytes = font.to_vec_u8();
    let decoded = SimplePixelFont::from_vec_u8(bytes).unwrap();
    assert_eq!(decoded.characters.len(), 3);
    for (a, b) in font.characters.iter().zip(decoded.characters.iter()) {
        assert_eq!(a.utf8, b.utf8);
        assert_eq!(a.size, b.size);
        assert_eq!(a.bitmap.width, b.bitmap.width);
        assert_eq!(a.bitmap.height, b.bitmap.height);
        assert_eq!(a.bitmap.data, b.bitmap.data);
    }
    assert_eq!(decoded.characters[1].size, 5);
}

#[test]
fn utf8_widths_round_trip() {
    let mut font = height_font(3);
    let chars = ['a', '\u{e9}', '\u{20ac}', '\u{1F60A}'];
    let bitmaps = ["110011", "101101101", "111", "010111010111"];
    for (c, px) in chars.iter().zip(bitmaps.iter()) {
        add(&mut font, *c, px);
    }
    let bytes = font.to_vec_u8();
    let body_len: usize = chars.iter().map(|c| c.len_utf8()).sum::<usize>()
        + 4
        + bitmaps.iter().map(|p| (p.len() + 7) / 8).sum::<usize>();
    assert_eq!(bytes.len(), 8 + body_len);
    let decoded = SimplePixelFont::from_vec_u8(bytes).unwrap();
    assert_eq!(decoded.characters.len(), 4);
    for (i, c) in chars.iter().enumerate() {
        assert_eq!(decoded.characters[i].utf8, *c);
        assert_eq!(decoded.characters[i].bitmap.data, pixels(bitmaps[i]));
        assert_eq!(decoded.characters[i].size as usize, bitmaps[i].len() / 3);
    }
}

#[test]
fn any_single_byte_change_fails_checked_decode() {
    let mut font = height_font(4);
    add(&mut font, 'o', "1111100110011111");
    add(&mut font, '\u{1F60A}', "0110000010010110");
    let bytes = font.to_vec_u8();
    assert!(SimplePixelFont::has_valid_checksum(&bytes));
    for i in 0..bytes.len() {
        for delta in [1u8, 0x80, 0xFF] {
            let mut changed = bytes.clone();
            changed[i] = changed[i].wrapping_add(delta);
            assert!(!SimplePixelFont::has_valid_checksum(&changed));
            assert!(SimplePixelFont::from_vec_u8(changed).is_none());
        }
    }
}

#[test]
fn packing_takes_ceil_n_over_8_bytes_and_unpacks_exactly() {
    for n in 0..=20usize {
        let px: Vec<bool> = (0..n).map(|k| k % 3 == 0 || k % 5 == 1).collect();
        let packed = pack_pixels(&px);
        assert_eq!(packed.len(), (n + 7) / 8);
        assert_eq!(unpack_pixels(&packed, n), px);
    }
    assert_eq!(pack_pixels(&pixels("10000000")), vec![1]);
    assert_eq!(pack_pixels(&pixels("0000000110")), vec![128, 1]);
    assert_eq!(pack_pixels(&[]), Vec::<u8>::new());
    let bitmap = Bitmap::new(3, 1, pixels("111"));
    assert_eq!(bitmap.segment_into_u8s(), vec![7]);
}

#[test]
fn wrong_signature_is_rejected() {
    let mut font = height_font(4);
    add(&mut font, 'o', "1111100110011111");
    let mut bytes = font.to_vec_u8();
    bytes[1] = b'S';
    assert_eq!(SimplePixelFont::try_from_vec_u8(&bytes).unwrap_err(), DecodeError::BadSignature);
    assert_eq!(SimplePixelFont::try_from_vec_u8(&[102, 115]).unwrap_err(), DecodeError::BadSignature);
    assert_eq!(SimplePixelFont::try_from_vec_u8(&[]).unwrap_err(), DecodeError::BadSignature);
}

#[test]
fn decode_errors() {
    let mut font = height_font(4);
    add(&mut font, 'o', "1111100110011111");
    let bytes = font.to_vec_u8();

    let cut = &bytes[..bytes.len() - 1];
    assert_eq!(SimplePixelFont::try_from_vec_u8(cut).unwrap_err(), DecodeError::Truncated);
    assert_eq!(SimplePixelFont::try_from_vec_u8(&bytes[..6]).unwrap_err(), DecodeError::Truncated);
    assert_eq!(SimplePixelFont::try_from_vec_u8(&bytes[..9]).unwrap_err(), DecodeError::Truncated);

    let mut versioned = bytes.clone();
    versioned[3] = 0x08;
    assert_eq!(
        SimplePixelFont::try_from_vec_u8(&versioned).unwrap_err(),
        DecodeError::UnsupportedVersion
    );

    let mut continuation_lead = bytes.clone();
    continuation_lead[8] = 0x80;
    assert_eq!(
        SimplePixelFont::try_from_vec_u8(&continuation_lead).unwrap_err(),
        DecodeError::InvalidCodePoint
    );

    let overlong = [102, 115, 70, 0, 1, 0, 0, 0, 0xC0, 0xAF, 0];
    assert_eq!(
        SimplePixelFont::try_from_vec_u8(&overlong).unwrap_err(),
        DecodeError::InvalidCodePoint
    );
    let surrogate = [102, 115, 70, 0, 1, 0, 0, 0, 0xED, 0xA0, 0x80, 0];
    assert_eq!(
        SimplePixelFont::try_from_vec_u8(&surrogate).unwrap_err(),
        DecodeError::InvalidCodePoint
    );
}

#[test]
fn header_only_buffer_decodes_to_empty_font() {
    let font = SimplePixelFont::new(FormatVersion::FV0000, Alignment::Width, 7);
    let bytes = font.to_vec_u8();
    assert_eq!(bytes.len(), 8);
    assert_eq!(bytes[3], 1);
    let decoded = SimplePixelFont::unchecked_from_vec_u8(bytes);
    assert!(matches!(decoded.alignment, Alignment::Width));
    assert_eq!(decoded.size, 7);
    assert!(decoded.characters.is_empty());
}

#[test]
fn width_alignment_swaps_bitmap_dimensions_on_decode() {
    // flags bit 0 set, font width 2; one character of height 3 (6 pixels, one byte).
    let body = vec![102u8, 115, 70, 1, 2, b'x', 3, 0b0010_1101];
    let sum = three_byte_checksum(&body);
    let mut bytes = body[..5].to_vec();
    bytes.extend_from_slice(&sum);
    bytes.extend_from_slice(&body[5..]);
    let decoded = SimplePixelFont::from_vec_u8(bytes).unwrap();
    let c = &decoded.characters[0];
    assert_eq!(c.bitmap.width, 2);
    assert_eq!(c.bitmap.height, 3);
    assert_eq!(c.bitmap.data, pixels("101101"));
}

#[test]
fn zero_sized_character_has_no_bitmap_bytes() {
    let mut font = height_font(4);
    add(&mut font, 'a', "");
    add(&mut font, 'b', "1111");
    let bytes = font.to_vec_u8();
    assert_eq!(&bytes[8..], &[b'a', 0, b'b', 1, 15]);
    let decoded = SimplePixelFont::from_vec_u8(bytes).unwrap();
    assert_eq!(decoded.characters.len(), 2);
    assert!(decoded.characters[0].bitmap.data.is_empty());
    assert_eq!(decoded.characters[1].utf8, 'b');
}

#[test]
fn checksum_is_invalid_for_short_buffers() {
    assert!(!SimplePixelFont::has_valid_checksum(&[102, 115, 70, 0, 4, 0, 0]));
    assert!(SimplePixelFont::from_vec_u8(vec![102, 115, 70]).is_none());
}

#[test]
fn checksum_values() {
    assert_eq!(three_byte_checksum(&[]), [0, 0, 0]);
    assert_eq!(three_byte_checksum(&[1, 2, 3]), [0, 160, 6]);
    assert_eq!(three_byte_checksum(&[102, 115, 70, 0, 4, 111, 4, 159, 249]), [210, 179, 46]);
}

#[test]
fn add_character_materializes_inferred_bitmaps_only() {
    let mut font = height_font(4);
    add(&mut font, 'o', "1111100110011");
    assert_eq!(font.characters.len(), 1);
    assert_eq!(font.characters[0].size, 3);
    assert_eq!(font.characters[0].bitmap.width, 3);
    assert_eq!(font.characters[0].bitmap.height, 4);
    assert_eq!(font.characters[0].bitmap.data.len(), 13);

    font.add_character(Character::new('x', 1, Bitmap::new(1, 4, pixels("1111"))));
    assert_eq!(font.characters.len(), 1);

    let mut wide = SimplePixelFont::new(FormatVersion::FV0000, Alignment::Width, 4);
    add(&mut wide, 'o', "1111");
    assert!(wide.characters.is_empty());
}

#[test]
fn constructors() {
    let b = Bitmap::inferred(&[true, false]);
    assert!(b.is_inferred());
    assert_eq!(b.width, 0);
    assert_eq!(b.height, 0);
    assert_eq!(b.data, vec![true, false]);
    let c = Character::inferred('q', b);
    assert_eq!(c.size, 0);
    assert_eq!(c.utf8, 'q');
    let n = Bitmap::new(2, 1, vec![true, true]);
    assert!(!n.is_inferred());
    let d = Character::new('r', 2, n);
    assert_eq!(d.size, 2);
    assert_eq!(d.bitmap.width, 2);
}

#[test]
fn utf8_primitives() {
    let mut out = Vec::new();
    push_utf8('\u{e9}', &mut out);
    push_utf8('\u{1F60A}', &mut out);
    assert_eq!(out, "\u{e9}\u{1F60A}".as_bytes());
    assert_eq!(utf8_lead_len(0x41), 1);
    assert_eq!(utf8_lead_len(0xC3), 2);
    assert_eq!(utf8_lead_len(0xE2), 3);
    assert_eq!(utf8_lead_len(0xF0), 4);
    assert_eq!(utf8_lead_len(0x80), 0);
    assert_eq!(utf8_lead_len(0xF8), 0);
    assert_eq!(decode_utf8_group(&out, 0, 2), Some('\u{e9}'));
    assert_eq!(decode_utf8_group(&out, 2, 4), Some('\u{1F60A}'));
    assert_eq!(decode_utf8_group(&[0xF4, 0x90, 0x80, 0x80], 0, 4), None);
}

#[test]
fn pixels_past_width_times_height_are_not_encoded() {
    let mut font = height_font(8);
    add(&mut font, 'a', "1");
    assert_eq!(font.characters[0].size, 0);
    let bytes = font.to_vec_u8();
    assert_eq!(bytes.len(), 10);
    assert_eq!(&bytes[8..], &[b'a', 0]);
    let decoded = SimplePixelFont::from_vec_u8(bytes).unwrap();
    assert_eq!(decoded.characters.len(), 1);
    assert!(decoded.characters[0].bitmap.data.is_empty());

    let mut font = height_font(4);
    add(&mut font, 'b', "111100001");
    add(&mut font, 'c', "1111");
    let bytes = font.to_vec_u8();
    assert_eq!(&bytes[8..], &[b'b', 2, 15, b'c', 1, 15]);
    let decoded = SimplePixelFont::from_vec_u8(bytes).unwrap();
    assert_eq!(decoded.characters.len(), 2);
    assert_eq!(decoded.characters[0].bitmap.data, pixels("11110000"));
    assert_eq!(decoded.characters[1].utf8, 'c');
    assert_eq!(decoded.characters[1].bitmap.data, pixels("1111"));
}

#[test]
fn packed_pixels_cuts_and_pads_to_width_times_height() {
    assert_eq!(Bitmap::new(2, 2, pixels("111111")).packed_pixels(), vec![15]);
    assert_eq!(Bitmap::new(3, 3, pixels("1")).packed_pixels(), vec![1, 0]);
    assert_eq!(Bitmap::new(0, 5, pixels("11")).packed_pixels(), Vec::<u8>::new());
}
