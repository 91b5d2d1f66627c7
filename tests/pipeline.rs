use vidfile::pipeline::{
    frame_payload, header_frame, payload_bits, payload_frame, payload_offset, payload_range, read_header, verdict,
    StreamError, Verdict,
};
use vidfile::raster::RasterError;
use vidfile::session::{VideoInfo, VideoType};

const W: u32 = 64;
const H: u32 = 48;

fn sample(n: usize) -> Vec<u8> {
    (0..n).map(|i| ((i * 37 + 11) % 256) as u8).collect()
}

/// Encodes `data` into frames and decodes them again, through the header.
fn round_trip(data: &[u8], mode: VideoType, pixel_size: u8) -> Vec<u8> {
    let checksum = sha256::digest(data);
    let info = VideoInfo::new(mode, "dir/payload.dat", pixel_size, 24, W, H, data.len() as u64, checksum.clone()).unwrap();
    let per_frame = info.bytes_per_frame().unwrap();
    let head = header_frame(&info).unwrap();
    let mut images = vec![head.image];
    for k in 0..info.total_frames() {
        let (start, end, last) = payload_range(data.len() as u64, per_frame, k as u64);
        assert_eq!(last, k + 1 == info.total_frames());
        images.push(payload_frame(&info, &data[start as usize..end as usize]).unwrap().image);
    }
    let parsed = read_header(&images[0], W, H).unwrap();
    assert_eq!(parsed.filename(), "payload.dat");
    assert_eq!(parsed.checksum(), checksum);
    assert_eq!(parsed.video_type, mode);
    assert_eq!(parsed.pixel_size, pixel_size);
    assert_eq!(parsed.total_frames(), info.total_frames());
    let mut out = vec![0u8; data.len()];
    for k in 0..parsed.total_frames() {
        let last = k + 1 == parsed.total_frames();
        let bytes = frame_payload(&parsed, &images[k + 1], W, H, last).unwrap();
        let offset = payload_offset(&parsed, W, H, k as u64).unwrap() as usize;
        assert_eq!(offset, k * per_frame as usize);
        out[offset..offset + bytes.len()].copy_from_slice(&bytes);
    }
    assert_eq!(verdict(&parsed.checksum(), &sha256::digest(&out)), Verdict::Intact);
    out
}

#[test]
fn file_round_trip_black_and_white() {
    // 16 x 12 blocks of 4 pixels: 192 bits, 24 bytes per frame.
    let per_frame = 24;
    for n in [0, 1, per_frame - 1, per_frame, per_frame + 1, 3 * per_frame] {
        let data = sample(n);
        assert_eq!(round_trip(&data, VideoType::BlackNWhite, 4), data);
    }
}

#[test]
fn file_round_trip_color() {
    // 16 x 12 blocks, three bits each: 72 bytes per frame.
    let per_frame = 72;
    for n in [0, 1, per_frame - 1, per_frame, per_frame + 1, 3 * per_frame] {
        let data = sample(n);
        assert_eq!(round_trip(&data, VideoType::Color, 4), data);
    }
}

#[test]
fn corrupted_file_is_reported() {
    let data = sample(50);
    let mut out = round_trip(&data, VideoType::BlackNWhite, 4);
    out[17] ^= 0xff;
    assert_eq!(verdict(&sha256::digest(&data), &sha256::digest(&out)), Verdict::Corrupted);
    assert_eq!(out.len(), 50);
}

#[test]
fn payload_bits_pad_with_zero_bytes() {
    let b = payload_bits(&[0xff], 2);
    assert_eq!(b.len(), 16);
    assert!(b[..8].iter().all(|x| *x));
    assert!(b[8..].iter().all(|x| !*x));
}

#[test]
fn payload_frame_refuses_oversized_chunks() {
    let info = VideoInfo::new(VideoType::BlackNWhite, "f", 4, 24, W, H, 100, sha256::digest("x")).unwrap();
    assert_eq!(payload_frame(&info, &sample(25)).unwrap_err(), StreamError::Raster(RasterError::TooManyBits));
    assert!(payload_frame(&info, &sample(24)).is_ok());
}

#[test]
fn payload_frame_refuses_reserved_modes() {
    let info = VideoInfo::new(VideoType::GrayScale, "f", 4, 24, W, H, 100, sha256::digest("x")).unwrap();
    assert_eq!(payload_frame(&info, &sample(1)).unwrap_err(), StreamError::Raster(RasterError::UnsupportedMode));
}

#[test]
fn header_frame_of_720p_uses_block_20() {
    let info = VideoInfo::new(VideoType::BlackNWhite, "f", 10, 24, 1280, 720, 2305, sha256::digest("x")).unwrap();
    let head = header_frame(&info).unwrap();
    assert_eq!(head.pixel_size, 20);
    assert_eq!(head.data.len(), 64 * 36);
    let parsed = read_header(&head.image, 1280, 720).unwrap();
    assert_eq!(parsed.total_frames(), 3);
    assert_eq!(parsed.unused_bytes(), 1151);
}

#[test]
fn header_needs_room() {
    assert_eq!(read_header(&vec![0u8; 3 * 100], 10, 10).unwrap_err(), StreamError::NoHeaderBlock);
}

#[test]
fn last_frame_must_hold_its_padding() {
    let info = VideoInfo::from_parse(VideoType::BlackNWhite, sha256::digest("x"), "f".to_string(), 4, 25, 1);
    let px = vec![0u8; (3 * W * H) as usize];
    assert_eq!(frame_payload(&info, &px, W, H, true).unwrap_err(), StreamError::Desync);
    assert_eq!(frame_payload(&info, &px, W, H, false).unwrap(), vec![0u8; 24]);
}

#[test]
fn header_with_unknown_mode_code() {
    let white = vec![255u8; 3 * 1280 * 720];
    assert_eq!(
        read_header(&white, 1280, 720).unwrap_err(),
        StreamError::Header(vidfile::head::HeaderError::UnknownVideoType)
    );
}

#[test]
fn payload_frame_geometry_errors() {
    let mut info = VideoInfo::from_parse(VideoType::BlackNWhite, sha256::digest("x"), "f".to_string(), 2, 0, 1);
    info.width = Some(4);
    info.height = Some(4);
    // 2 x 2 blocks of one bit each do not make a whole byte.
    assert_eq!(
        payload_frame(&info, &[]).unwrap_err(),
        StreamError::Config(vidfile::session::ConfigError::IncompatibleDimensions)
    );
    info.pixel_size = 3;
    assert_eq!(
        payload_frame(&info, &[]).unwrap_err(),
        StreamError::Raster(RasterError::IncompatibleDimensions)
    );
}

#[test]
fn header_frame_refuses_reserved_modes() {
    for mode in [VideoType::GrayScale, VideoType::Color8, VideoType::Color16] {
        let info = VideoInfo::new(mode, "f", 4, 24, W, H, 0, sha256::digest("x")).unwrap();
        assert_eq!(header_frame(&info).unwrap_err(), StreamError::Raster(RasterError::UnsupportedMode));
    }
}

#[test]
fn payload_ranges() {
    assert_eq!(payload_range(2305, 1152, 0), (0, 1152, false));
    assert_eq!(payload_range(2305, 1152, 1), (1152, 2304, false));
    assert_eq!(payload_range(2305, 1152, 2), (2304, 2305, true));
    assert_eq!(payload_range(2304, 1152, 1), (1152, 2304, true));
}

#[test]
fn payload_offsets_follow_the_mode() {
    let mono = VideoInfo::from_parse(VideoType::BlackNWhite, sha256::digest("x"), "f".to_string(), 10, 0, 3);
    assert_eq!(payload_offset(&mono, 1280, 720, 2), Ok(2304));
    let color = VideoInfo::from_parse(VideoType::Color, sha256::digest("x"), "f".to_string(), 10, 0, 3);
    assert_eq!(payload_offset(&color, 1280, 720, 2), Ok(6912));
    let odd = VideoInfo::from_parse(VideoType::BlackNWhite, sha256::digest("x"), "f".to_string(), 1, 0, 3);
    assert_eq!(payload_offset(&odd, 3, 1, 1), Err(StreamError::Desync));
    let reserved = VideoInfo::from_parse(VideoType::Color8, sha256::digest("x"), "f".to_string(), 1, 0, 3);
    assert_eq!(payload_offset(&reserved, 8, 8, 1), Err(StreamError::Raster(RasterError::UnsupportedMode)));
}
