use vidfile::raster::{decode_frame, encode_black_and_white, encode_color, Frame, RasterError};
use vidfile::session::VideoType;

fn pixel(img: &[u8], w: usize, x: usize, y: usize) -> (u8, u8, u8) {
    let i = 3 * (y * w + x);
    (img[i], img[i + 1], img[i + 2])
}

#[test]
fn black_and_white_blocks() {
    // 4x4 pixels, 2x2 blocks: top-left white, top-right black, bottom-left black, bottom-right white.
    let img = encode_black_and_white(&[true, false, false, true], 2, 4, 4);
    assert_eq!(img.len(), 48);
    for (x, y, v) in [(0, 0, 255), (1, 1, 255), (2, 0, 0), (3, 1, 0), (0, 2, 0), (1, 3, 0), (2, 2, 255), (3, 3, 255)] {
        assert_eq!(pixel(&img, 4, x, y), (v, v, v));
    }
}

#[test]
fn color_blocks_use_red_green_blue() {
    // 2x1 blocks of one pixel: bits (r, g, b) = (1, 0, 1) and (0, 1, 0).
    let img = encode_color(&[true, false, true, false, true, false], 1, 2, 1);
    assert_eq!(img, vec![255, 0, 255, 0, 255, 0]);
}

#[test]
fn compute_colors_pads_and_paints() {
    let mut f = Frame::new(vec![true], 2, 4, 2);
    assert_eq!(f.image, vec![0u8; 24]);
    assert_eq!(f.compute_colors(VideoType::BlackNWhite, 2), Ok(()));
    assert_eq!(f.data, vec![true, false]);
    assert_eq!(pixel(&f.image, 4, 1, 1), (255, 255, 255));
    assert_eq!(pixel(&f.image, 4, 2, 0), (0, 0, 0));
}

#[test]
fn compute_colors_refuses_too_many_bits() {
    let mut f = Frame::new(vec![true; 3], 2, 4, 2);
    assert_eq!(f.compute_colors(VideoType::BlackNWhite, 2), Err(RasterError::TooManyBits));
    assert_eq!(f.data.len(), 3);
}

#[test]
fn compute_colors_errors() {
    let mut f = Frame::new(vec![], 2, 4, 2);
    assert_eq!(f.compute_colors(VideoType::GrayScale, 6), Err(RasterError::UnsupportedMode));
    assert_eq!(f.compute_colors(VideoType::Color16, 24), Err(RasterError::UnsupportedMode));
    assert_eq!(f.compute_colors(VideoType::BlackNWhite, 3), Err(RasterError::IncompatibleDimensions));
    let mut g = Frame::new(vec![], 3, 4, 2);
    assert_eq!(g.compute_colors(VideoType::BlackNWhite, 1), Err(RasterError::IncompatibleDimensions));
}

#[test]
fn decode_reads_block_centres() {
    let bits = vec![true, false, true, true, false, false];
    let mut f = Frame::new(bits.clone(), 5, 15, 10);
    f.compute_colors(VideoType::BlackNWhite, 6).unwrap();
    assert_eq!(decode_frame(&f.image, VideoType::BlackNWhite, 5, 15, 10), Ok(bits));
}

#[test]
fn decode_color_round_trip() {
    let bits: Vec<bool> = (0..18).map(|i| i % 3 != 1 || i % 5 == 0).collect();
    let mut f = Frame::new(bits.clone(), 4, 12, 8);
    f.compute_colors(VideoType::Color, 18).unwrap();
    assert_eq!(decode_frame(&f.image, VideoType::Color, 4, 12, 8), Ok(bits));
}

#[test]
fn decode_thresholds_the_mean() {
    // One pixel per block; means 127 and 128.
    let px = vec![127, 127, 127, 200, 100, 84];
    assert_eq!(decode_frame(&px, VideoType::BlackNWhite, 1, 2, 1), Ok(vec![false, true]));
    assert_eq!(decode_frame(&px, VideoType::Color8, 1, 2, 1), Err(RasterError::UnsupportedMode));
    assert_eq!(decode_frame(&px, VideoType::BlackNWhite, 0, 2, 1), Err(RasterError::IncompatibleDimensions));
}
