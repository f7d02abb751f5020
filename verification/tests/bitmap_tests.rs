use escpos_assets::bitmap::{pack_bits, row_bytes, unpack_bits};

fn grid(width: usize, height: usize, ink: &[(usize, usize)]) -> Vec<u8> {
    let mut px = vec![255u8; width * height];
    for &(r, c) in ink {
        px[r * width + c] = 0;
    }
    px
}

#[test]
fn row_bytes_rounds_up() {
    assert_eq!(row_bytes(0), 0);
    assert_eq!(row_bytes(1), 1);
    assert_eq!(row_bytes(8), 1);
    assert_eq!(row_bytes(9), 2);
    assert_eq!(row_bytes(12), 2);
    assert_eq!(row_bytes(16), 2);
}

#[test]
fn pack_exact_bytes_with_padding() {
    // width 12: each row is two bytes, the last four bits of the second are padding
    let px = grid(12, 2, &[(0, 0), (0, 2), (0, 11), (1, 8)]);
    let data = pack_bits(12, 2, &px);
    assert_eq!(data, vec![0xA0, 0x10, 0x00, 0x80]);
}

#[test]
fn pack_full_byte_rows() {
    let px = grid(8, 1, &[(0, 0), (0, 2), (0, 4), (0, 6)]);
    let data = pack_bits(8, 1, &px);
    assert_eq!(data, vec![0xAA]);
}

#[test]
fn pack_empty_dimensions() {
    assert_eq!(pack_bits(0, 5, &vec![]), Vec::<u8>::new());
    assert_eq!(pack_bits(5, 0, &vec![]), Vec::<u8>::new());
    assert_eq!(pack_bits(0, 0, &vec![]), Vec::<u8>::new());
}

#[test]
fn pack_single_pixel_wide() {
    // one byte per row, seven padding bits
    let px = grid(1, 3, &[(1, 0)]);
    let data = pack_bits(1, 3, &px);
    assert_eq!(data, vec![0x00, 0x80, 0x00]);
}

#[test]
fn padding_invariant_lengths() {
    for &(w, h) in &[(1usize, 1usize), (7, 3), (8, 3), (9, 3), (12, 2), (16, 4), (0, 9), (9, 0)] {
        let px = vec![255u8; w * h];
        let data = pack_bits(w, h, &px);
        assert_eq!(data.len(), h * ((w + 7) / 8));
    }
}

#[test]
fn unpack_round_trip() {
    let px = grid(13, 4, &[(0, 0), (0, 12), (1, 7), (2, 8), (3, 3), (3, 11)]);
    let data = pack_bits(13, 4, &px);
    let back = unpack_bits(13, 4, &data);
    assert_eq!(back, px);
}

#[test]
fn unpack_then_pack_reproduces_bytes() {
    let px = grid(9, 3, &[(0, 8), (1, 0), (2, 4)]);
    let data = pack_bits(9, 3, &px);
    let back = unpack_bits(9, 3, &data);
    let again = pack_bits(9, 3, &back);
    assert_eq!(again, data);
}
