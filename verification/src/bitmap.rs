use vstd::prelude::*;
use vstd::arithmetic::div_mod::lemma_fundamental_div_mod;
use vstd::arithmetic::div_mod::lemma_fundamental_div_mod_converse;

verus! {

/// Number of bytes that one packed row of `width` one-bit pixels occupies:
/// eight pixels to a byte, rounded up.
pub open spec fn row_bytes_spec(width: nat) -> nat {
    (width + 7) / 8
}

/// Number of bytes needed to hold one row of `width` one-bit pixels.
pub fn row_bytes(width: u16) -> (r: usize)
    ensures
        r == row_bytes_spec(width as nat),
{
    ((width as usize) + 7) / 8
}

/// Bit `k` of `byte`, counting from the most significant bit (`k == 0`).
pub open spec fn bit_set(byte: u8, k: u8) -> bool
    recommends
        k < 8,
{
    byte & (128u8 >> k) != 0
}

/// The byte of `data` that holds row `r`, byte column `j`, for rows of `width` pixels.
pub open spec fn byte_at(data: Seq<u8>, width: nat, r: int, j: int) -> u8 {
    data[r * row_bytes_spec(width) + j]
}

/// The packed bit of row `r`, pixel column `c` (most-significant bit first
/// within each byte).
pub open spec fn packed_bit(data: Seq<u8>, width: nat, r: int, c: int) -> bool {
    bit_set(byte_at(data, width, r, c / 8), (c % 8) as u8)
}

/// Ink at row `r`, column `c` of a row-major grid of luminance values:
/// a pixel prints ink exactly when its luminance is zero.
pub open spec fn ink_at(pixels: Seq<u8>, width: nat, r: int, c: int) -> bool {
    pixels[r * width + c] == 0
}

/// `data` is the row-padded, most-significant-bit-first packing of the
/// two-level grid `pixels`: every pixel bit matches the grid, and every
/// padding bit past the row's last pixel is clear.
pub open spec fn packed_rel(data: Seq<u8>, pixels: Seq<u8>, width: nat, height: nat) -> bool {
    &&& pixels.len() == width * height
    &&& data.len() == height * row_bytes_spec(width)
    &&& forall|r: int, c: int|
        0 <= r < height && 0 <= c < 8 * row_bytes_spec(width) ==> #[trigger] packed_bit(
            data,
            width,
            r,
            c,
        ) == (c < width && ink_at(pixels, width, r, c))
}

/// A packed one-bit-per-pixel bitmap: width and height in pixels, and the
/// row-padded packed bytes.
#[derive(Debug, PartialEq, Eq)]
pub struct Bitmap {
    pub width: u16,
    pub height: u16,
    pub data: Vec<u8>,
}

impl Bitmap {
    /// The padding invariant: the data holds exactly one row of packed bytes
    /// per pixel row, the last byte of each row padded out with clear bits.
    pub open spec fn wf(self) -> bool {
        self.data@.len() == self.height as nat * row_bytes_spec(self.width as nat)
    }
}

/// Every value of a dithered grid is one of the two extreme luminance levels.
pub open spec fn two_level(pixels: Seq<u8>) -> bool {
    forall|i: int| 0 <= i < pixels.len() ==> pixels[i] == 0 || #[trigger] pixels[i] == 255
}

proof fn lemma_set_bit(b: u8, s: u8)
    by (bit_vector)
    requires
        s < 8,
    ensures
        forall|t: u8| t < 8 ==> #[trigger] bit_set(b | (128u8 >> s), t) == (t == s || bit_set(b, t)),
{
}

proof fn lemma_zero_bits()
    by (bit_vector)
    ensures
        forall|t: u8| t < 8 ==> !(#[trigger] bit_set(0u8, t)),
{
}

proof fn lemma_byte_from_bits(a: u8, b: u8)
    by (bit_vector)
    requires
        bit_set(a, 0) == bit_set(b, 0),
        bit_set(a, 1) == bit_set(b, 1),
        bit_set(a, 2) == bit_set(b, 2),
        bit_set(a, 3) == bit_set(b, 3),
        bit_set(a, 4) == bit_set(b, 4),
        bit_set(a, 5) == bit_set(b, 5),
        bit_set(a, 6) == bit_set(b, 6),
        bit_set(a, 7) == bit_set(b, 7),
    ensures
        a == b,
{
}

proof fn lemma_row_bytes(w: int)
    requires
        0 <= w,
    ensures
        row_bytes_spec(w as nat) == w / 8 + if w % 8 != 0 {
            1int
        } else {
            0int
        },
        w <= 8 * row_bytes_spec(w as nat) < w + 8,
{
    if w % 8 == 0 {
        lemma_fundamental_div_mod_converse(w + 7, 8, w / 8, 7);
    } else {
        lemma_fundamental_div_mod_converse(w + 7, 8, w / 8 + 1, w % 8 - 1);
    }
}

/// Packs a row-major grid of luminance values, one bit per pixel, eight
/// pixels per byte with the most significant bit first, each row padded out
/// to a whole number of bytes with clear bits.
pub fn pack_bits(width: usize, height: usize, pixels: &Vec<u8>) -> (data: Vec<u8>)
    requires
        pixels@.len() == width * height,
    ensures
        packed_rel(data@, pixels@, width as nat, height as nat),
{
    proof {
        lemma_row_bytes(width as int);
    }
    let total: usize = pixels.len();
    let rb: usize = width / 8 + if width % 8 != 0 {
        1
    } else {
        0
    };
    let mut data: Vec<u8> = Vec::new();
    let mut r: usize = 0;
    let mut base: usize = 0;
    while r < height
        invariant
            r <= height,
            base == r * width,
            pixels@.len() == width * height,
            total == pixels@.len(),
            rb == row_bytes_spec(width as nat),
            width <= 8 * rb < width + 8,
            data@.len() == r * rb,
            forall|r2: int, c2: int|
                0 <= r2 < r && 0 <= c2 < 8 * rb ==> #[trigger] packed_bit(
                    data@,
                    width as nat,
                    r2,
                    c2,
                ) == (c2 < width && ink_at(pixels@, width as nat, r2, c2)),
        decreases height - r,
    {
        proof {
            assert(base + width <= width * height && (r + 1) * width == base + width) by (nonlinear_arith)
                requires
                    base == r * width,
                    r < height,
                    0 <= width,
            ;
        }
        let mut byte: u8 = 0;
        let mut c: usize = 0;
        proof {
            lemma_zero_bits();
        }
        while c < width
            invariant
                c <= width,
                r < height,
                base == r * width,
                base + width <= total,
                pixels@.len() == width * height,
                total == pixels@.len(),
                rb == row_bytes_spec(width as nat),
                width <= 8 * rb < width + 8,
                data@.len() == r * rb + c / 8,
                forall|r2: int, c2: int|
                    0 <= r2 < r && 0 <= c2 < 8 * rb ==> #[trigger] packed_bit(
                        data@,
                        width as nat,
                        r2,
                        c2,
                    ) == (c2 < width && ink_at(pixels@, width as nat, r2, c2)),
                forall|c2: int|
                    0 <= c2 < 8 * (c / 8) ==> #[trigger] packed_bit(data@, width as nat, r as int, c2)
                        == ink_at(pixels@, width as nat, r as int, c2),
                forall|t: u8|
                    t < 8 ==> (#[trigger] bit_set(byte, t) <==> (t < c % 8 && ink_at(
                        pixels@,
                        width as nat,
                        r as int,
                        8 * ((c / 8) as int) + t,
                    ))),
            decreases width - c,
        {
            let ghost old_c = c as int;
            let ghost old_byte = byte;
            proof {
                assert(8 * (old_c / 8) + old_c % 8 == old_c && 0 <= old_c % 8 < 8 && 0 <= old_c / 8)
                    by (nonlinear_arith)
                    requires
                        0 <= old_c,
                ;
            }
            let k: u8 = (c % 8) as u8;
            let ink_px: bool = pixels[base + c] == 0;
            if ink_px {
                byte = byte | (128u8 >> k);
                proof {
                    lemma_set_bit(old_byte, k);
                }
            }
            let ghost full_byte = byte;
            proof {
                assert(ink_at(pixels@, width as nat, r as int, old_c) == (pixels@[base + old_c]
                    == 0));
                assert forall|t: u8| t < 8 implies (#[trigger] bit_set(full_byte, t) <==> (t <= k
                    && ink_at(pixels@, width as nat, r as int, 8 * (old_c / 8) + t))) by {
                    if t == k {
                        assert(8 * (old_c / 8) + k == old_c);
                    }
                }
            }
            let ghost old_data = data@;
            let ghost old_len = data@.len() as int;
            if k == 7 {
                data.push(byte);
                byte = 0;
                proof {
                    lemma_zero_bits();
                }
            }
            c = c + 1;
            proof {
                if k == 7 {
                    assert((old_c + 1) / 8 == old_c / 8 + 1 && (old_c + 1) % 8 == 0) by (nonlinear_arith)
                        requires
                            old_c % 8 == 7,
                            0 <= old_c,
                    ;
                    assert(data@.len() == r * rb + (old_c + 1) / 8);
                    assert forall|r2: int, c2: int|
                        0 <= r2 < r && 0 <= c2 < 8 * rb implies #[trigger] packed_bit(
                        data@,
                        width as nat,
                        r2,
                        c2,
                    ) == (c2 < width && ink_at(pixels@, width as nat, r2, c2)) by {
                        let j = c2 / 8;
                        assert(0 <= j < rb) by (nonlinear_arith)
                            requires
                                0 <= c2 < 8 * rb,
                                j == c2 / 8,
                        ;
                        assert(r2 * rb + j < r * rb && 0 <= r2 * rb + j) by (nonlinear_arith)
                            requires
                                0 <= r2 < r,
                                0 <= j < rb,
                        ;
                        assert(data@[r2 * rb + j] == old_data[r2 * rb + j]);
                        assert(byte_at(data@, width as nat, r2, j) == byte_at(
                            old_data,
                            width as nat,
                            r2,
                            j,
                        ));
                        assert(packed_bit(old_data, width as nat, r2, c2) == (c2 < width && ink_at(
                            pixels@,
                            width as nat,
                            r2,
                            c2,
                        )));
                    }
                    assert forall|c2: int| 0 <= c2 < 8 * (c / 8) implies #[trigger] packed_bit(
                        data@,
                        width as nat,
                        r as int,
                        c2,
                    ) == ink_at(pixels@, width as nat, r as int, c2) by {
                        let j = c2 / 8;
                        assert(0 <= j <= old_c / 8 && 8 * j + c2 % 8 == c2 && 0 <= c2 % 8 < 8)
                            by (nonlinear_arith)
                            requires
                                0 <= c2 < 8 * (old_c / 8 + 1),
                                j == c2 / 8,
                        ;
                        assert(0 <= r * rb + j <= r * rb + old_c / 8) by (nonlinear_arith)
                            requires
                                0 <= r,
                                0 <= rb,
                                0 <= j,
                                j <= old_c / 8,
                        ;
                        if j < old_c / 8 {
                            assert(c2 < 8 * (old_c / 8)) by (nonlinear_arith)
                                requires
                                    j < old_c / 8,
                                    8 * j + c2 % 8 == c2,
                                    c2 % 8 < 8,
                            ;
                            assert(data@[r * rb + j] == old_data[r * rb + j]);
                            assert(byte_at(data@, width as nat, r as int, j) == byte_at(
                                old_data,
                                width as nat,
                                r as int,
                                j,
                            ));
                            assert(packed_bit(old_data, width as nat, r as int, c2) == ink_at(
                                pixels@,
                                width as nat,
                                r as int,
                                c2,
                            ));
                        } else {
                            assert(j == old_c / 8);
                            assert(r * rb + j == old_len);
                            assert(data@[old_len] == full_byte);
                            assert(byte_at(data@, width as nat, r as int, j) == full_byte);
                            let t = (c2 % 8) as u8;
                            assert(t < 8);
                            assert(bit_set(full_byte, t) <==> (t <= 7u8 && ink_at(
                                pixels@,
                                width as nat,
                                r as int,
                                8 * (old_c / 8) + t,
                            )));
                            assert(8 * (old_c / 8) + t == c2);
                            assert(c2 <= old_c && c2 < width) by (nonlinear_arith)
                                requires
                                    8 * (old_c / 8) + c2 % 8 == c2,
                                    c2 % 8 <= 7,
                                    old_c % 8 == 7,
                                    8 * (old_c / 8) + old_c % 8 == old_c,
                                    old_c < width,
                            ;
                        }
                    }
                } else {
                    assert((old_c + 1) / 8 == old_c / 8 && (old_c + 1) % 8 == old_c % 8 + 1)
                        by (nonlinear_arith)
                        requires
                            old_c % 8 < 7,
                            0 <= old_c,
                    ;
                }
            }
        }
        let ghost old_data = data@;
        let ghost old_len = data@.len() as int;
        if width % 8 != 0 {
            data.push(byte);
        }
        proof {
            assert(data@.len() == r * rb + rb);
            assert forall|r2: int, c2: int|
                0 <= r2 < r + 1 && 0 <= c2 < 8 * rb implies #[trigger] packed_bit(
                data@,
                width as nat,
                r2,
                c2,
            ) == (c2 < width && ink_at(pixels@, width as nat, r2, c2)) by {
                let j = c2 / 8;
                assert(0 <= j < rb && 8 * j + c2 % 8 == c2 && 0 <= c2 % 8 < 8) by (nonlinear_arith)
                    requires
                        0 <= c2 < 8 * rb,
                        j == c2 / 8,
                ;
                if r2 < r {
                    assert(r2 * rb + j < r * rb && 0 <= r2 * rb + j) by (nonlinear_arith)
                        requires
                            0 <= r2 < r,
                            0 <= j < rb,
                    ;
                    assert(r * rb <= old_len) by (nonlinear_arith)
                        requires
                            old_len == r * rb + width / 8,
                            0 <= width / 8,
                    ;
                    assert(data@[r2 * rb + j] == old_data[r2 * rb + j]);
                    assert(byte_at(data@, width as nat, r2, j) == byte_at(
                        old_data,
                        width as nat,
                        r2,
                        j,
                    ));
                    assert(packed_bit(old_data, width as nat, r2, c2) == (c2 < width && ink_at(
                        pixels@,
                        width as nat,
                        r2,
                        c2,
                    )));
                } else {
                    assert(r2 == r);
                    if j < width / 8 {
                        assert(c2 < 8 * (width / 8)) by (nonlinear_arith)
                            requires
                                j < width / 8,
                                8 * j + c2 % 8 == c2,
                                c2 % 8 < 8,
                        ;
                        assert(0 <= r * rb + j < old_len) by (nonlinear_arith)
                            requires
                                0 <= r,
                                0 <= rb,
                                0 <= j,
                                j < width / 8,
                                old_len == r * rb + width / 8,
                        ;
                        assert(data@[r * rb + j] == old_data[r * rb + j]);
                        assert(byte_at(data@, width as nat, r2, j) == byte_at(
                            old_data,
                            width as nat,
                            r2,
                            j,
                        ));
                        assert(c2 < width && c2 < 8 * ((width / 8) as int)) by (nonlinear_arith)
                            requires
                                c2 < 8 * (width / 8),
                                0 <= width,
                        ;
                        assert(packed_bit(old_data, width as nat, r as int, c2) == ink_at(
                            pixels@,
                            width as nat,
                            r as int,
                            c2,
                        ));
                    } else {
                        assert(width % 8 != 0 && j == width / 8) by (nonlinear_arith)
                            requires
                                width / 8 <= j < rb,
                                rb == width / 8 + if width % 8 != 0 {
                                    1int
                                } else {
                                    0int
                                },
                        ;
                        assert(r * rb + j == old_len);
                        assert(data@[old_len] == byte);
                        assert(byte_at(data@, width as nat, r2, j) == byte);
                        assert(bit_set(byte, (c2 % 8) as u8) <==> (c2 % 8 < width % 8 && ink_at(
                            pixels@,
                            width as nat,
                            r as int,
                            8 * ((width / 8) as int) + (c2 % 8) as u8,
                        )));
                        assert(8 * (width / 8) + (c2 % 8) as int == c2);
                        assert(c2 < width <==> c2 % 8 < width % 8) by (nonlinear_arith)
                            requires
                                8 * (width / 8) + c2 % 8 == c2,
                                j == width / 8,
                                0 <= width,
                                0 <= c2 % 8 < 8,
                        ;
                    }
                }
            }
            assert((r + 1) * rb == r * rb + rb) by (nonlinear_arith);
        }
        base = base + width;
        r = r + 1;
    }
    data
}

/// The grid read back from a packed bitmap: luminance zero where the stored
/// bit is set, the bright level where it is clear.
pub open spec fn unpacked_spec(data: Seq<u8>, width: nat, height: nat) -> Seq<u8> {
    Seq::new(
        width * height,
        |i: int|
            if packed_bit(data, width, i / width as int, i % width as int) {
                0u8
            } else {
                255u8
            },
    )
}

/// Reads every pixel back out of a packed bitmap, row by row, ignoring the
/// padding bits at the end of each row.
pub fn unpack_bits(width: usize, height: usize, data: &Vec<u8>) -> (pixels: Vec<u8>)
    requires
        data@.len() == height * row_bytes_spec(width as nat),
    ensures
        pixels@ == unpacked_spec(data@, width as nat, height as nat),
        pixels@.len() == width * height,
{
    proof {
        lemma_row_bytes(width as int);
        assert(width * height == height * width) by (nonlinear_arith);
    }
    let dn: usize = data.len();
    let rb: usize = width / 8 + if width % 8 != 0 {
        1
    } else {
        0
    };
    let mut out: Vec<u8> = Vec::new();
    let mut r: usize = 0;
    let mut row_base: usize = 0;
    while r < height
        invariant
            r <= height,
            row_base == r * rb,
            data@.len() == height * rb,
            dn == data@.len(),
            rb == row_bytes_spec(width as nat),
            width <= 8 * rb < width + 8,
            out@.len() == r * width,
            r * width <= width * height,
            forall|i: int|
                0 <= i < out@.len() ==> out@[i] == unpacked_spec(
                    data@,
                    width as nat,
                    height as nat,
                )[i],
        decreases height - r,
    {
        proof {
            assert(r * width + width <= width * height && (r + 1) * width == r * width + width && (r
                + 1) * rb == r * rb + rb && r * rb + rb <= height * rb) by (nonlinear_arith)
                requires
                    r < height,
                    0 <= width,
                    0 <= rb,
            ;
        }
        let mut c: usize = 0;
        while c < width
            invariant
                c <= width,
                r < height,
                row_base == r * rb,
                row_base + rb <= dn,
                data@.len() == height * rb,
                dn == data@.len(),
                rb == row_bytes_spec(width as nat),
                width <= 8 * rb < width + 8,
                out@.len() == r * width + c,
                r * width + width <= width * height,
                forall|i: int|
                    0 <= i < out@.len() ==> out@[i] == unpacked_spec(
                        data@,
                        width as nat,
                        height as nat,
                    )[i],
            decreases width - c,
        {
            proof {
                assert(c / 8 < rb && 0 <= c / 8) by (nonlinear_arith)
                    requires
                        0 <= c < width,
                        width <= 8 * rb,
                ;
            }
            let bi: usize = row_base + c / 8;
            let k: u8 = (c % 8) as u8;
            let ink: bool = data[bi] & (128u8 >> k) != 0;
            let ghost i = r * width + c;
            proof {
                assert(packed_bit(data@, width as nat, r as int, c as int) == ink);
                lemma_fundamental_div_mod_converse(i as int, width as int, r as int, c as int);
                assert(unpacked_spec(data@, width as nat, height as nat)[i as int] == (if ink {
                    0u8
                } else {
                    255u8
                }));
            }
            out.push(
                if ink {
                    0
                } else {
                    255
                },
            );
            c = c + 1;
        }
        row_base = row_base + rb;
        r = r + 1;
    }
    proof {
        assert(out@ =~= unpacked_spec(data@, width as nat, height as nat));
    }
    out
}

/// Round trip: a packed bitmap reproduces exactly the two-level grid that was
/// packed, whatever the width and height; padding bits are never read back.
pub proof fn lemma_pack_round_trip(data: Seq<u8>, pixels: Seq<u8>, width: nat, height: nat)
    requires
        packed_rel(data, pixels, width, height),
        two_level(pixels),
    ensures
        unpacked_spec(data, width, height) == pixels,
{
    lemma_row_bytes(width as int);
    assert forall|i: int| 0 <= i < width * height implies unpacked_spec(data, width, height)[i]
        == pixels[i] by {
        assert(0 < width) by (nonlinear_arith)
            requires
                0 <= i < width * height,
                0 <= width,
        ;
        let r = i / width as int;
        let c = i % width as int;
        lemma_fundamental_div_mod(i, width as int);
        assert(0 <= c < width && 0 <= r < height) by (nonlinear_arith)
            requires
                0 <= i < width * height,
                i == width * r + c,
                0 <= c < width,
        ;
        assert(r * width + c == i) by (nonlinear_arith)
            requires
                i == width * r + c,
        ;
        assert(packed_bit(data, width, r, c) == (pixels[i] == 0));
        assert(pixels[i] == 0 || pixels[i] == 255);
    }
    assert(unpacked_spec(data, width, height) =~= pixels);
}

/// The packing relation pins the bytes down completely: two packings of the
/// same grid are byte-identical.
pub proof fn lemma_packed_unique(d1: Seq<u8>, d2: Seq<u8>, pixels: Seq<u8>, width: nat, height: nat)
    requires
        packed_rel(d1, pixels, width, height),
        packed_rel(d2, pixels, width, height),
    ensures
        d1 == d2,
{
    lemma_row_bytes(width as int);
    let rb = row_bytes_spec(width);
    assert forall|n: int| 0 <= n < d1.len() implies d1[n] == d2[n] by {
        assert(0 < rb) by (nonlinear_arith)
            requires
                0 <= n < height * rb,
                0 <= rb,
        ;
        let r = n / rb as int;
        let j = n % rb as int;
        lemma_fundamental_div_mod(n, rb as int);
        assert(0 <= j < rb && 0 <= r < height) by (nonlinear_arith)
            requires
                0 <= n < height * rb,
                n == rb * r + j,
                0 <= j < rb,
                0 < rb,
        ;
        assert(r * rb + j == n) by (nonlinear_arith)
            requires
                n == rb * r + j,
        ;
        assert forall|t: u8| t < 8 implies #[trigger] bit_set(d1[n], t) == bit_set(d2[n], t) by {
            let c = 8 * j + t;
            assert(0 <= c < 8 * rb && c / 8 == j && c % 8 == t) by (nonlinear_arith)
                requires
                    0 <= j < rb,
                    t < 8,
                    c == 8 * j + t,
            ;
            assert(byte_at(d1, width, r, j) == d1[n] && byte_at(d2, width, r, j) == d2[n]);
            assert(packed_bit(d1, width, r, c) == packed_bit(d2, width, r, c));
        }
        lemma_byte_from_bits(d1[n], d2[n]);
    }
    assert(d1 =~= d2);
}

} // verus!
