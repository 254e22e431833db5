use schmimmdee::luminance::rgba_pixels_from_bytes;
use schmimmdee::luminance::rgba_to_gray_scalar_u8;
use schmimmdee::luminance::rgba_to_gray_simd_u8;

fn expected_luminance(r: u8, g: u8, b: u8) -> u8 {
    ((54 * r as u16 + 182 * g as u16 + 18 * b as u16) >> 8) as u8
}

#[test]
fn black_pixel_stays_black() {
    let out = rgba_to_gray_simd_u8(&[[0, 0, 0, 255]]);
    assert_eq!(out, vec![[0, 0, 0]]);
}

#[test]
fn white_pixel_maps_to_fixed_point_formula_value() {
    let out = rgba_to_gray_simd_u8(&[[255, 255, 255, 255]]);
    let l = expected_luminance(255, 255, 255);
    assert_eq!(out, vec![[l, l, l]]);
    assert_eq!(l, 253);
}

#[test]
fn known_pixel_values_match_formula_exactly() {
    let pixels = [[200, 30, 90, 0], [1, 2, 3, 4], [255, 0, 0, 255], [0, 255, 0, 0]];
    let out = rgba_to_gray_simd_u8(&pixels);
    assert_eq!(out.len(), 4);
    assert_eq!(out[0], [69, 69, 69]);
    assert_eq!(out[1], [1, 1, 1]);
    assert_eq!(out[2], [53, 53, 53]);
    assert_eq!(out[3], [181, 181, 181]);
    for (pixel, gray) in pixels.iter().zip(out.iter()) {
        let l = expected_luminance(pixel[0], pixel[1], pixel[2]);
        assert_eq!(*gray, [l, l, l]);
    }
}

#[test]
fn alpha_channel_is_ignored() {
    let opaque = rgba_to_gray_simd_u8(&[[10, 20, 30, 255]]);
    let clear = rgba_to_gray_simd_u8(&[[10, 20, 30, 0]]);
    assert_eq!(opaque, clear);
}

#[test]
fn chunked_and_scalar_grayscale_agree() {
    let mut pixels = Vec::new();
    for k in 0..35u16 {
        let v = (k * 7) as u8;
        pixels.push([v, v.wrapping_add(13), v.wrapping_mul(3), 255]);
    }
    let chunked = rgba_to_gray_simd_u8(&pixels);
    let scalar = rgba_to_gray_scalar_u8(&pixels);
    assert_eq!(chunked, scalar);
    assert_eq!(chunked.len(), pixels.len());
    for (pixel, gray) in pixels.iter().zip(chunked.iter()) {
        let l = expected_luminance(pixel[0], pixel[1], pixel[2]);
        assert_eq!(*gray, [l, l, l]);
    }
}

#[test]
fn empty_pixel_buffer_gives_empty_output() {
    let out = rgba_to_gray_simd_u8(&[]);
    assert!(out.is_empty());
}

#[test]
fn pixel_buffer_from_bytes_groups_in_order() {
    let bytes = [1u8, 2, 3, 4, 5, 6, 7, 8];
    let pixels = rgba_pixels_from_bytes(&bytes).unwrap();
    assert_eq!(pixels, vec![[1, 2, 3, 4], [5, 6, 7, 8]]);
}

#[test]
fn pixel_buffer_refuses_misaligned_byte_count() {
    assert!(rgba_pixels_from_bytes(&[1u8, 2, 3]).is_none());
    assert!(rgba_pixels_from_bytes(&[1u8, 2, 3, 4, 5]).is_none());
    assert!(rgba_pixels_from_bytes(&[]).is_some());
}
