//! Keys and stored values of the render cache: a key is the lowercase hex
//! form of a SHA-256-derived digest of the scale's bytes and the document;
//! a stored value is the byte layout of `codec`.
use vstd::prelude::*;

use std::hash::Hasher;

use sha::sha256::Sha256;

use crate::codec::{decode_error, decoded, encoding, is_complete, le_bytes, push_le, u8_to_img, img_to_u8, DecodeError};
use crate::image::RasterImage;

verus! {

#[verifier::external_type_specification]
#[verifier::external_body]
pub struct ExUsvgError(usvg::Error);

/// Why a document could not be turned into an image.
#[derive(Debug)]
pub enum SvgError {
    /// The document is not a vector graphic that the parser accepts.
    CannotParse(usvg::Error),
    /// No canvas of this size could be made.
    CannotLoad { width: u32, height: u32 },
    /// The renderer reported a failure.
    CannotRender,
    /// A stored entry is shorter than the image it announces.
    CannotDecode(DecodeError),
    /// The store failed to read or write; rendering without it may work.
    Other(String),
}

/// What `Sha256`, used as a `Hasher`, returns from `finish` after the
/// bytes `data` were written to it.
pub uninterp spec fn sha256_hasher_finish(data: Seq<u8>) -> u64;

/// Relies on `sha::sha256::Sha256` as a `std::hash::Hasher`: `write`
/// appends the bytes to the message, and `finish` returns the first eight
/// bytes of its SHA-256 digest as a `u64`, a value of the bytes alone.
#[verifier::external_body]
fn sha256_finish(data: &[u8]) -> (h: u64)
    ensures
        h == sha256_hasher_finish(data@),
{
    let mut hasher = Sha256::default();
    hasher.write(data);
    hasher.finish()
}

/// Relies on `String`'s `FromIterator<char>`: the string of exactly these
/// characters, in order.
#[verifier::external_body]
fn string_of_chars(chars: &Vec<char>) -> (s: String)
    ensures
        s@ == chars@,
{
    chars.iter().collect()
}

pub open spec fn hex_digit(d: nat) -> char {
    if d < 10 {
        (d + 48) as char
    } else {
        (d + 87) as char
    }
}

/// The lowercase hexadecimal digits of `n`, most significant first, with
/// no leading zero (a single `0` for zero).
pub open spec fn hex_digits(n: nat) -> Seq<char>
    decreases n,
{
    if n < 16 {
        seq![hex_digit(n)]
    } else {
        hex_digits(n / 16).push(hex_digit(n % 16))
    }
}

/// The bytes that are hashed for a key: the scale's four little-endian
/// bytes, then the document.
pub open spec fn key_message(scale_bits: u32, svg_bytes: Seq<u8>) -> Seq<u8> {
    le_bytes(scale_bits) + svg_bytes
}

fn digit_char(d: u64) -> (c: char)
    requires
        d < 16,
    ensures
        c == hex_digit(d as nat),
{
    if d < 10 {
        ((d as u8) + 48u8) as char
    } else {
        ((d as u8) + 87u8) as char
    }
}

fn push_hex(v: u64, out: &mut Vec<char>)
    ensures
        final(out)@ == old(out)@ + hex_digits(v as nat),
    decreases v,
{
    if v >= 16 {
        push_hex(v / 16, out);
    }
    let c = digit_char(v % 16);
    out.push(c);
    assert(final(out)@ =~= old(out)@ + hex_digits(v as nat));
}

/// The lowercase hexadecimal form of a digest, as used for cache keys.
pub fn hex_key(digest: u64) -> (s: String)
    ensures
        s@ == hex_digits(digest as nat),
{
    let mut chars: Vec<char> = Vec::new();
    push_hex(digest, &mut chars);
    assert(chars@ =~= hex_digits(digest as nat));
    string_of_chars(&chars)
}

/// The cache key of a document rendered at the scale whose IEEE-754 bits
/// are `scale_bits`.
pub fn cache_key(scale_bits: u32, svg_bytes: &[u8]) -> (s: String)
    requires
        svg_bytes@.len() + 4 <= usize::MAX,
    ensures
        s@ == hex_digits(sha256_hasher_finish(key_message(scale_bits, svg_bytes@)) as nat),
{
    let mut message: Vec<u8> = Vec::with_capacity(svg_bytes.len() + 4);
    push_le(&mut message, scale_bits);
    let mut i: usize = 0;
    while i < svg_bytes.len()
        invariant
            i <= svg_bytes@.len(),
            message@ == le_bytes(scale_bits) + svg_bytes@.subrange(0, i as int),
        decreases svg_bytes@.len() - i,
    {
        message.push(svg_bytes[i]);
        assert(message@ =~= le_bytes(scale_bits) + svg_bytes@.subrange(0, i + 1));
        i += 1;
    }
    assert(svg_bytes@.subrange(0, i as int) =~= svg_bytes@);
    let digest = sha256_finish(message.as_slice());
    hex_key(digest)
}

/// The bytes stored for a render outcome: the encoding of a rendered image;
/// failures are not stored.
pub fn render_result_to_bytes(outcome: &Result<RasterImage, SvgError>) -> (r: Option<Vec<u8>>)
    requires
        outcome matches Ok(img) ==> img@.is_valid() && 8 + 4 * img.pixels@.len() <= usize::MAX,
    ensures
        outcome is Err <==> r is None,
        outcome matches Ok(img) ==> r matches Some(b) && b@ == encoding(img@),
{
    match outcome {
        Ok(img) => Some(img_to_u8(img)),
        Err(_) => None,
    }
}

/// The render outcome that stored bytes hold: the decoded image, or
/// `CannotDecode` when the bytes are cut short.
pub fn render_result_from_bytes(bin: &[u8]) -> (r: Result<RasterImage, SvgError>)
    ensures
        is_complete(bin@) <==> r is Ok,
        r matches Ok(img) ==> img@ == decoded(bin@),
        !is_complete(bin@) ==> (r matches Err(e) && e == SvgError::CannotDecode(decode_error(bin@))),
{
    match u8_to_img(bin) {
        Ok(img) => Ok(img),
        Err(e) => Err(SvgError::CannotDecode(e)),
    }
}

} // verus!
