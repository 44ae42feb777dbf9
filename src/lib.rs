//! A codec for a compact monochrome pixel-font file format.
//!
//! A [`SimplePixelFont`] holds characters with bitmaps. [`SimplePixelFont::to_vec_u8`]
//! encodes it: a signature, a flags byte, the font size, a 24-bit checksum, then
//! one record per character (its UTF-8 bytes, its size, its packed bitmap).
//! [`SimplePixelFont::from_vec_u8`] and [`SimplePixelFont::try_from_vec_u8`]
//! decode such a buffer.
use vstd::prelude::*;

pub mod bits;
pub mod checksum;
pub mod font;
pub mod laws;
pub mod utf8;

pub use font::{Alignment, Bitmap, Character, DecodeError, FormatVersion, SimplePixelFont};

verus! {

} // verus!
