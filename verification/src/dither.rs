use vstd::prelude::*;

verus! {

/// What Floyd-Steinberg error diffusion over the two-level map leaves in a
/// grayscale buffer of the given dimensions: a pure function of the pixel
/// values alone, named here and never restated.
pub uninterp spec fn dither_of(width: nat, height: nat, pixels: Seq<u8>) -> Seq<u8>;

/// Relies on image::imageops::colorops::dither with the
/// image::imageops::colorops::BiLevel map on an
/// image::ImageBuffer<image::Luma<u8>, Vec<u8>>: Floyd-Steinberg error
/// diffusion in integer arithmetic, a deterministic function of the pixel
/// values alone. It sends every pixel through BiLevel's map_color, so each
/// comes out 0 or 255, and it never changes the dimensions. Its kernel reads
/// the right-hand neighbour of every visited pixel unconditionally, so it
/// needs at least two columns, and at least one row.
#[verifier::external_body]
pub(crate) fn dither_bilevel(width: u32, height: u32, pixels: Vec<u8>) -> (r: Vec<u8>)
    requires
        2 <= width,
        1 <= height,
        pixels@.len() == width * height,
    ensures
        r@ == dither_of(width as nat, height as nat, pixels@),
        r@.len() == pixels@.len(),
        crate::bitmap::two_level(r@),
{
    let mut img = image::ImageBuffer::<image::Luma<u8>, Vec<u8>>::from_raw(width, height, pixels)
        .expect("buffer length matches the dimensions");
    image::imageops::colorops::dither(&mut img, &image::imageops::colorops::BiLevel);
    img.into_raw()
}

/// A luminance clamped to the representable range.
pub open spec fn clamp_byte(v: int) -> int {
    if v < 0 {
        0
    } else if v > 255 {
        255
    } else {
        v
    }
}

/// The level a pixel settles at once the carried error is added: bright if
/// the adjusted luminance exceeds the midpoint, dark otherwise.
pub open spec fn col_out(p: u8, err: int) -> u8 {
    if clamp_byte(p + err) > 127 {
        255u8
    } else {
        0u8
    }
}

/// The quantization error left over after a pixel settles.
pub open spec fn col_err(p: u8, err: int) -> int {
    clamp_byte(p + err) - col_out(p, err)
}

pub open spec fn column_dither_rec(pixels: Seq<u8>, i: int, err: int) -> Seq<u8>
    decreases pixels.len() - i,
{
    if i < 0 || i >= pixels.len() {
        Seq::empty()
    } else {
        seq![col_out(pixels[i], err)] + column_dither_rec(pixels, i + 1, col_err(pixels[i], err))
    }
}

/// Error-diffusion dithering of a single-column image: each pixel is pushed
/// to one of the two levels and its whole quantization error carries to the
/// pixel below, the only unprocessed neighbour such an image has.
pub open spec fn column_dither_spec(pixels: Seq<u8>) -> Seq<u8> {
    column_dither_rec(pixels, 0, 0)
}

/// Dithers a one-pixel-wide image by diffusing each pixel's quantization
/// error to the pixel below it.
pub fn column_dither(pixels: &Vec<u8>) -> (r: Vec<u8>)
    ensures
        r@ == column_dither_spec(pixels@),
        r@.len() == pixels@.len(),
        crate::bitmap::two_level(r@),
{
    let n: usize = pixels.len();
    let mut out: Vec<u8> = Vec::new();
    let mut i: usize = 0;
    let mut err: i16 = 0;
    proof {
        assert(column_dither_spec(pixels@) =~= out@ + column_dither_rec(pixels@, 0, 0));
    }
    while i < n
        invariant
            i <= n,
            n == pixels@.len(),
            -127 <= err <= 127,
            out@.len() == i,
            column_dither_spec(pixels@) == out@ + column_dither_rec(pixels@, i as int, err as int),
            crate::bitmap::two_level(out@),
        decreases n - i,
    {
        let ghost old_out = out@;
        let ghost old_err = err as int;
        let p: u8 = pixels[i];
        let v_raw: i16 = p as i16 + err;
        let v: i16 = if v_raw < 0 {
            0
        } else if v_raw > 255 {
            255
        } else {
            v_raw
        };
        let o: u8 = if v > 127 {
            255
        } else {
            0
        };
        let new_err: i16 = v - (o as i16);
        proof {
            assert(v == clamp_byte(p + old_err));
            assert(o == col_out(p, old_err));
            assert(new_err == col_err(p, old_err));
            assert(column_dither_rec(pixels@, i as int, old_err) == seq![o]
                + column_dither_rec(pixels@, i + 1, new_err as int));
        }
        out.push(o);
        err = new_err;
        i = i + 1;
        proof {
            assert(out@ + column_dither_rec(pixels@, i as int, err as int) =~= old_out + (seq![o]
                + column_dither_rec(pixels@, i as int, err as int)));
        }
    }
    proof {
        assert(column_dither_rec(pixels@, n as int, err as int) =~= Seq::empty());
        assert(out@ + column_dither_rec(pixels@, n as int, err as int) =~= out@);
    }
    out
}

} // verus!
