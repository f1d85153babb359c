//! The byte layout of a stored image: width and height as little-endian
//! `u32`, then four bytes (r, g, b, a) per pixel in row-major order.
use vstd::prelude::*;

use crate::image::{ImageModel, RasterImage, Rgba};

verus! {

/// Bytes before the first pixel.
pub const HEADER_LEN: usize = 8;

/// Why a byte buffer does not hold an image.
#[derive(PartialEq, Eq, Structural, Clone, Copy, Debug)]
pub enum DecodeError {
    /// Fewer bytes than the two size fields take.
    MissingHeader { len: usize },
    /// The size fields ask for more pixel bytes than follow them.
    TruncatedPixels { width: u32, height: u32, len: usize },
}

pub open spec fn le_bytes(v: u32) -> Seq<u8> {
    seq![v as u8, (v >> 8u32) as u8, (v >> 16u32) as u8, (v >> 24u32) as u8]
}

pub open spec fn le_value(b0: u8, b1: u8, b2: u8, b3: u8) -> u32 {
    (b0 as u32) | ((b1 as u32) << 8u32) | ((b2 as u32) << 16u32) | ((b3 as u32) << 24u32)
}

/// The `u32` stored little-endian at `at .. at + 4`.
pub open spec fn read_le(b: Seq<u8>, at: int) -> u32 {
    le_value(b[at], b[at + 1], b[at + 2], b[at + 3])
}

pub open spec fn channel(c: Rgba, k: int) -> u8 {
    if k == 0 {
        c.r
    } else if k == 1 {
        c.g
    } else if k == 2 {
        c.b
    } else {
        c.a
    }
}

/// Four bytes per pixel, r, g, b, a.
pub open spec fn pixel_bytes(p: Seq<Rgba>) -> Seq<u8> {
    Seq::new(4 * p.len(), |i: int| channel(p[i / 4], i % 4))
}

pub open spec fn encoding(m: ImageModel) -> Seq<u8> {
    le_bytes(m.width) + le_bytes(m.height) + pixel_bytes(m.pixels)
}

pub open spec fn stored_width(b: Seq<u8>) -> u32 {
    read_le(b, 0)
}

pub open spec fn stored_height(b: Seq<u8>) -> u32 {
    read_le(b, 4)
}

/// How many pixels the size fields announce.
pub open spec fn stored_count(b: Seq<u8>) -> int {
    stored_width(b) * stored_height(b)
}

/// The buffer holds both size fields and every pixel they announce.
pub open spec fn is_complete(b: Seq<u8>) -> bool {
    &&& b.len() >= 8
    &&& b.len() >= 8 + 4 * stored_count(b)
}

/// The error for a buffer that is not complete.
pub open spec fn decode_error(b: Seq<u8>) -> DecodeError {
    if b.len() < 8 {
        DecodeError::MissingHeader { len: b.len() as usize }
    } else {
        DecodeError::TruncatedPixels {
            width: stored_width(b),
            height: stored_height(b),
            len: b.len() as usize,
        }
    }
}

pub open spec fn stored_pixel(b: Seq<u8>, i: int) -> Rgba {
    Rgba { r: b[8 + 4 * i], g: b[8 + 4 * i + 1], b: b[8 + 4 * i + 2], a: b[8 + 4 * i + 3] }
}

/// The image that a complete buffer holds; bytes after the last pixel are
/// not part of it.
pub open spec fn decoded(b: Seq<u8>) -> ImageModel {
    ImageModel {
        width: stored_width(b),
        height: stored_height(b),
        pixels: Seq::new(
            stored_count(b) as nat,
            |i: int| stored_pixel(b, i),
        ),
    }
}

proof fn lemma_le_round_trip(v: u32)
    ensures
        read_le(le_bytes(v), 0) == v,
{
    assert(le_value(v as u8, (v >> 8u32) as u8, (v >> 16u32) as u8, (v >> 24u32) as u8) == v)
        by (bit_vector);
}

/// Decoding the encoding of a valid image gives that image back.
pub proof fn lemma_round_trip(m: ImageModel)
    requires
        m.is_valid(),
    ensures
        is_complete(encoding(m)),
        decoded(encoding(m)) == m,
{
    let b = encoding(m);
    lemma_le_round_trip(m.width);
    lemma_le_round_trip(m.height);
    assert(b.subrange(0, 4) =~= le_bytes(m.width));
    assert(b.subrange(4, 8) =~= le_bytes(m.height));
    assert(stored_width(b) == m.width);
    assert(stored_height(b) == m.height);
    assert(b.len() == 8 + 4 * (m.width * m.height));
    let d = decoded(b);
    assert forall|i: int| 0 <= i < m.pixels.len() implies d.pixels[i] == m.pixels[i] by {
        assert((4 * i) / 4 == i && (4 * i + 1) / 4 == i && (4 * i + 2) / 4 == i && (4 * i + 3)
            / 4 == i);
        assert((4 * i) % 4 == 0 && (4 * i + 1) % 4 == 1 && (4 * i + 2) % 4 == 2 && (4 * i + 3)
            % 4 == 3);
    }
    assert(d.pixels =~= m.pixels);
}

pub(crate) fn push_le(out: &mut Vec<u8>, v: u32)
    ensures
        final(out)@ == old(out)@ + le_bytes(v),
{
    out.push(v as u8);
    out.push((v >> 8u32) as u8);
    out.push((v >> 16u32) as u8);
    out.push((v >> 24u32) as u8);
    assert(final(out)@ =~= old(out)@ + le_bytes(v));
}

/// Writes an image in the stored layout.
pub fn img_to_u8(img: &RasterImage) -> (r: Vec<u8>)
    requires
        img@.is_valid(),
        8 + 4 * img.pixels@.len() <= usize::MAX,
    ensures
        r@ == encoding(img@),
{
    let mut out: Vec<u8> = Vec::with_capacity(HEADER_LEN + 4 * img.pixels.len());
    push_le(&mut out, img.width);
    push_le(&mut out, img.height);
    let head = Ghost(le_bytes(img.width) + le_bytes(img.height));
    assert(out@ =~= head@);
    let mut i: usize = 0;
    while i < img.pixels.len()
        invariant
            i <= img.pixels@.len(),
            out@ == head@ + pixel_bytes(img.pixels@.subrange(0, i as int)),
        decreases img.pixels@.len() - i,
    {
        let c = img.pixels[i];
        out.push(c.r);
        out.push(c.g);
        out.push(c.b);
        out.push(c.a);
        proof {
            let before = pixel_bytes(img.pixels@.subrange(0, i as int));
            let after = pixel_bytes(img.pixels@.subrange(0, i + 1));
            assert forall|k: int| 0 <= k < after.len() implies after[k] == (before + seq![
                c.r,
                c.g,
                c.b,
                c.a,
            ])[k] by {
                if k < 4 * i {
                } else {
                    assert(k / 4 == i);
                }
            }
            assert(after =~= before + seq![c.r, c.g, c.b, c.a]);
        }
        i += 1;
    }
    assert(img.pixels@.subrange(0, i as int) =~= img.pixels@);
    out
}

/// Reads an image in the stored layout. Fails, without reading past the end,
/// when the buffer is shorter than the size fields or the pixels they
/// announce.
pub fn u8_to_img(bin: &[u8]) -> (r: Result<RasterImage, DecodeError>)
    ensures
        bin@.len() < 8 <==> r == Err::<RasterImage, DecodeError>(
            DecodeError::MissingHeader { len: bin@.len() as usize },
        ),
        (bin@.len() >= 8 && !is_complete(bin@)) <==> r == Err::<RasterImage, DecodeError>(
            DecodeError::TruncatedPixels {
                width: stored_width(bin@),
                height: stored_height(bin@),
                len: bin@.len() as usize,
            },
        ),
        is_complete(bin@) <==> r is Ok,
        r matches Ok(img) ==> img@ == decoded(bin@),
        !is_complete(bin@) ==> r == Err::<RasterImage, DecodeError>(decode_error(bin@)),
{
    if bin.len() < HEADER_LEN {
        return Err(DecodeError::MissingHeader { len: bin.len() });
    }
    let width: u32 = (bin[0] as u32) | ((bin[1] as u32) << 8u32) | ((bin[2] as u32) << 16u32)
        | ((bin[3] as u32) << 24u32);
    let height: u32 = (bin[4] as u32) | ((bin[5] as u32) << 8u32) | ((bin[6] as u32) << 16u32)
        | ((bin[7] as u32) << 24u32);
    assert(width == stored_width(bin@) && height == stored_height(bin@));
    assert(width * height <= 0xffff_ffff * 0xffff_ffff) by (nonlinear_arith)
        requires
            width <= 0xffff_ffff,
            height <= 0xffff_ffff,
    ;
    let count: u64 = width as u64 * height as u64;
    let room: usize = (bin.len() - HEADER_LEN) / 4;
    if count > room as u64 {
        assert(4 * (width * height) > bin@.len() - 8) by (nonlinear_arith)
            requires
                count == width * height,
                count > room,
                room == (bin@.len() - 8) / 4,
        ;
        return Err(DecodeError::TruncatedPixels { width, height, len: bin.len() });
    }
    assert(4 * (width * height) <= bin@.len() - 8) by (nonlinear_arith)
        requires
            count == width * height,
            count <= room,
            room == (bin@.len() - 8) / 4,
    ;
    let n: usize = count as usize;
    let mut pixels: Vec<Rgba> = Vec::with_capacity(n);
    let blen: usize = bin.len();
    let mut i: usize = 0;
    while i < n
        invariant
            blen == bin@.len(),
            n == width * height,
            8 + 4 * n <= bin@.len(),
            i <= n,
            pixels@.len() == i,
            forall|j: int| 0 <= j < i ==> pixels@[j] == stored_pixel(bin@, j),
        decreases n - i,
    {
        let at: usize = HEADER_LEN + 4 * i;
        pixels.push(Rgba { r: bin[at], g: bin[at + 1], b: bin[at + 2], a: bin[at + 3] });
        i += 1;
    }
    let img = RasterImage { width, height, pixels };
    assert(img@.pixels =~= decoded(bin@).pixels);
    Ok(img)
}

} // verus!
