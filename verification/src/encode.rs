use vstd::prelude::*;
use crate::bitmap::Bitmap;
use crate::bitmap::packed_rel;
use crate::bitmap::lemma_packed_unique;
use crate::dither::column_dither_spec;
use crate::dither::dither_of;

verus! {

/// A decoded grayscale image: one luminance byte per pixel, row major.
pub struct LumaImage {
    pub width: u32,
    pub height: u32,
    pub pixels: Vec<u8>,
}

/// What decoding a byte stream to an 8-bit grayscale image yields, if it
/// yields anything: a pure function of the bytes alone, named here and never
/// restated.
pub uninterp spec fn luma_decode_of(bytes: Seq<u8>) -> Option<(nat, nat, Seq<u8>)>;

/// Relies on image::load_from_memory, which guesses the format and decodes,
/// and on image::DynamicImage::into_luma8, which reduces any decoded image to
/// 8-bit luminance: both are deterministic functions of the input bytes, and
/// the luminance buffer of an image holds exactly width * height bytes.
#[verifier::external_body]
fn decode_luma(bytes: &Vec<u8>) -> (r: Option<LumaImage>)
    ensures
        match r {
            Some(img) => luma_decode_of(bytes@) == Some(
                ((img.width as nat), (img.height as nat), img.pixels@),
            ) && img.pixels@.len() == img.width as nat * img.height as nat,
            None => luma_decode_of(bytes@) is None,
        },
{
    match image::load_from_memory(bytes.as_slice()) {
        Ok(decoded) => {
            let img = decoded.into_luma8();
            let (width, height) = img.dimensions();
            Some(LumaImage { width, height, pixels: img.into_raw() })
        },
        Err(_) => None,
    }
}

/// Why a byte stream could not be turned into a bitmap.
#[derive(Clone, Copy, Debug, PartialEq, Eq, Structural)]
pub enum DecodeError {
    /// The bytes are not a readable image.
    Unreadable,
    /// The image decodes, but a side exceeds what the bitmap header can hold.
    TooLarge,
}

/// The two-level grid a grayscale image dithers to. An empty image stays
/// empty; a single-column image takes the one-dimensional diffusion, which is
/// all the neighbourhood such an image has; anything wider takes the
/// Floyd-Steinberg kernel.
pub open spec fn dithered_spec(width: nat, height: nat, pixels: Seq<u8>) -> Seq<u8> {
    if width == 0 || height == 0 {
        Seq::empty()
    } else if width == 1 {
        column_dither_spec(pixels)
    } else {
        dither_of(width, height, pixels)
    }
}

/// The bytes decode to an image whose sides fit the bitmap header.
pub open spec fn decode_ok(bytes: Seq<u8>) -> bool {
    match luma_decode_of(bytes) {
        Some(t) => t.0 <= u16::MAX && t.1 <= u16::MAX,
        None => false,
    }
}

/// What a successful encoding of `bytes` looks like: the decoded dimensions,
/// and the packing of the dithered grid.
pub open spec fn encode_ok_post(bytes: Seq<u8>, bm: Bitmap) -> bool {
    match luma_decode_of(bytes) {
        Some(t) => {
            &&& t.0 <= u16::MAX
            &&& t.1 <= u16::MAX
            &&& bm.width as nat == t.0
            &&& bm.height as nat == t.1
            &&& packed_rel(bm.data@, dithered_spec(t.0, t.1, t.2), t.0, t.1)
        },
        None => false,
    }
}

/// Dithers a grayscale grid down to two levels and packs it, one bit per
/// pixel. Width or height zero gives an empty bitmap and does not fail.
pub fn encode_luma(width: u16, height: u16, pixels: Vec<u8>) -> (bm: Bitmap)
    requires
        pixels@.len() == width as nat * height as nat,
    ensures
        bm.width == width,
        bm.height == height,
        packed_rel(
            bm.data@,
            dithered_spec(width as nat, height as nat, pixels@),
            width as nat,
            height as nat,
        ),
        bm.wf(),
{
    let w: usize = width as usize;
    let h: usize = height as usize;
    if width == 0 || height == 0 {
        let data: Vec<u8> = Vec::new();
        proof {
            assert(crate::bitmap::row_bytes_spec(width as nat) == 0 || height as nat == 0);
            assert(width as nat * height as nat == 0) by (nonlinear_arith)
                requires
                    width == 0 || height == 0,
            ;
            assert(height as nat * crate::bitmap::row_bytes_spec(width as nat) == 0) by (nonlinear_arith)
                requires
                    height as nat == 0 || crate::bitmap::row_bytes_spec(width as nat) == 0,
            ;
        }
        Bitmap { width, height, data }
    } else if width == 1 {
        let two = crate::dither::column_dither(&pixels);
        let data = crate::bitmap::pack_bits(w, h, &two);
        Bitmap { width, height, data }
    } else {
        let two = crate::dither::dither_bilevel(width as u32, height as u32, pixels);
        let data = crate::bitmap::pack_bits(w, h, &two);
        Bitmap { width, height, data }
    }
}

/// Decodes a byte stream and encodes it as a packed bitmap. Fails exactly
/// when the bytes are not a readable image, or the image is too large for
/// the header.
pub fn encode_bytes(bytes: &Vec<u8>) -> (r: Result<Bitmap, DecodeError>)
    ensures
        r is Ok <==> decode_ok(bytes@),
        match r {
            Ok(bm) => encode_ok_post(bytes@, bm) && bm.wf(),
            Err(e) => match luma_decode_of(bytes@) {
                None => e == DecodeError::Unreadable,
                Some(t) => (t.0 > u16::MAX || t.1 > u16::MAX) && e == DecodeError::TooLarge,
            },
        },
{
    match decode_luma(bytes) {
        None => Err(DecodeError::Unreadable),
        Some(img) => {
            if img.width > 65535 || img.height > 65535 {
                Err(DecodeError::TooLarge)
            } else {
                let bm = encode_luma(img.width as u16, img.height as u16, img.pixels);
                Ok(bm)
            }
        },
    }
}

/// Determinism: the encoding contract pins the output down completely, so
/// any two bitmaps encoded from the same bytes are identical.
pub proof fn lemma_encode_deterministic(bytes: Seq<u8>, a: Bitmap, b: Bitmap)
    requires
        encode_ok_post(bytes, a),
        encode_ok_post(bytes, b),
    ensures
        a.width == b.width,
        a.height == b.height,
        a.data@ == b.data@,
{
    match luma_decode_of(bytes) {
        Some(t) => {
            lemma_packed_unique(a.data@, b.data@, dithered_spec(t.0, t.1, t.2), t.0, t.1);
        },
        None => {},
    }
}

} // verus!
