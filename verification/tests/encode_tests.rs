use escpos_assets::encode::{encode_bytes, encode_luma, DecodeError};

fn png_bytes(width: u32, height: u32, pixels: Vec<u8>) -> Vec<u8> {
    let img = image::GrayImage::from_raw(width, height, pixels).expect("buffer fits dimensions");
    let mut out = std::io::Cursor::new(Vec::new());
    img.write_to(&mut out, image::ImageFormat::Png).expect("png encodes");
    out.into_inner()
}

fn ink_count(data: &[u8]) -> usize {
    data.iter().map(|b| b.count_ones() as usize).sum()
}

#[test]
fn encode_luma_empty_dimensions() {
    let bm = encode_luma(0, 7, vec![]);
    assert_eq!(bm.width, 0);
    assert_eq!(bm.height, 7);
    assert_eq!(bm.data, Vec::<u8>::new());
    let bm = encode_luma(7, 0, vec![]);
    assert_eq!(bm.data, Vec::<u8>::new());
}

#[test]
fn encode_luma_single_column_diffuses_error() {
    // mid-gray column: plain thresholding would turn every pixel bright,
    // error diffusion alternates the levels
    let bm = encode_luma(1, 8, vec![128u8; 8]);
    assert_eq!(bm.width, 1);
    assert_eq!(bm.height, 8);
    assert_eq!(bm.data, vec![0x00, 0x80, 0x00, 0x80, 0x00, 0x80, 0x00, 0x80]);
}

#[test]
fn encode_luma_black_and_white_stay_put() {
    let bm = encode_luma(8, 2, vec![0u8; 16]);
    assert_eq!(bm.data, vec![0xFF, 0xFF]);
    let bm = encode_luma(8, 2, vec![255u8; 16]);
    assert_eq!(bm.data, vec![0x00, 0x00]);
}

#[test]
fn dithering_is_non_trivial_on_gradient() {
    // a smooth horizontal gradient: ink must stay near half density and the
    // rows must not collapse into one repeated threshold band
    let (w, h) = (32usize, 32usize);
    let mut px = vec![0u8; w * h];
    for y in 0..h {
        for x in 0..w {
            px[y * w + x] = (x * 255 / (w - 1)) as u8;
        }
    }
    let bm = encode_luma(w as u16, h as u16, px);
    let total_bits = w * h;
    let ink = ink_count(&bm.data);
    assert!(ink > total_bits * 3 / 10, "too little ink for a gradient: {ink}");
    assert!(ink < total_bits * 7 / 10, "too much ink for a gradient: {ink}");
    let rows: Vec<&[u8]> = bm.data.chunks(4).collect();
    assert!(rows.iter().any(|r| *r != rows[0]), "all rows identical: no error ever carried over");
}

#[test]
fn encode_bytes_decodes_png() {
    let bytes = png_bytes(12, 3, vec![0u8; 36]);
    let bm = encode_bytes(&bytes).expect("a valid image encodes");
    assert_eq!(bm.width, 12);
    assert_eq!(bm.height, 3);
    assert_eq!(bm.data.len(), 3 * 2);
    // an all-black image packs to all ink, padding bits clear
    assert_eq!(bm.data, vec![0xFF, 0xF0, 0xFF, 0xF0, 0xFF, 0xF0]);
}

#[test]
fn encode_bytes_rejects_garbage() {
    let bytes = vec![1u8, 2, 3, 4, 5, 6, 7, 8];
    assert_eq!(encode_bytes(&bytes), Err(DecodeError::Unreadable));
}

#[test]
fn encode_bytes_rejects_oversized_image() {
    let bytes = png_bytes(65536, 1, vec![255u8; 65536]);
    assert_eq!(encode_bytes(&bytes), Err(DecodeError::TooLarge));
}

#[test]
fn encoding_is_deterministic() {
    let bytes = png_bytes(17, 9, (0..17u32 * 9).map(|i| (i % 251) as u8).collect());
    let a = encode_bytes(&bytes).expect("valid");
    let b = encode_bytes(&bytes).expect("valid");
    assert_eq!(a, b);
}
