use vidfile::session::{gcd, get_bytes_per_frame, max_pixel_size, ConfigError, VideoInfo, VideoType};

const SUM: &str = "2cf24dba5fb0a30e26e83b2ac5b9e29e1b161e5c1fa7425e73043362938b9824";

#[test]
fn gcd_values() {
    assert_eq!(gcd(1280, 720), 80);
    assert_eq!(gcd(7, 0), 7);
    assert_eq!(gcd(0, 9), 9);
    assert_eq!(gcd(17, 5), 1);
}

#[test]
fn bytes_per_frame_values() {
    assert_eq!(get_bytes_per_frame(1280 * 720, 10, (1, 8)), Ok(1152));
    assert_eq!(get_bytes_per_frame(1280 * 720, 10, (3, 8)), Ok(3456));
    assert_eq!(get_bytes_per_frame(1280 * 720, 7, (1, 8)), Err(ConfigError::IncompatibleDimensions));
    assert_eq!(get_bytes_per_frame(1280 * 720, 0, (1, 8)), Err(ConfigError::IncompatibleDimensions));
    assert_eq!(get_bytes_per_frame(12, 1, (1, 8)), Err(ConfigError::IncompatibleDimensions));
}

#[test]
fn header_block_size_for_720p() {
    assert_eq!(max_pixel_size(844, 1280, 720), Some(20));
    assert_eq!(max_pixel_size(844, 10, 10), None);
}

#[test]
fn header_block_size_is_the_largest_fit() {
    for (w, h) in [(1280u32, 720u32), (1920, 1080), (640, 480), (100, 100), (300, 200)] {
        let g = gcd(w, h);
        let fits = |s: u32| s > 0 && w % s == 0 && h % s == 0 && (w as u64 * h as u64) / (s as u64 * s as u64) > 844;
        let best = (1..=g).rev().find(|&s| fits(s));
        assert_eq!(max_pixel_size(844, w, h), best);
        if let Some(s) = best {
            assert!(((s + 1)..=std::cmp::max(w, h)).all(|t| !fits(t)));
        }
    }
}

#[test]
fn session_for_720p_scenario() {
    let info = VideoInfo::new(VideoType::BlackNWhite, "some/dir/data.bin", 10, 24, 1280, 720, 2305, SUM.to_string()).unwrap();
    assert_eq!(info.bytes_per_frame(), Ok(1152));
    assert_eq!(info.total_frames(), 3);
    assert_eq!(info.unused_bytes(), 1151);
    assert_eq!(info.filename(), "data.bin");
    assert_eq!(info.checksum(), SUM);
    assert_eq!(info.total_pixels(), 921600);
    assert_eq!(info.file_size(), 2305);
    assert_eq!(info.fps(), 24);
    assert_eq!(info.width(), 1280);
    assert_eq!(info.height(), 720);
}

#[test]
fn session_frame_counts_at_edges() {
    let make = |size: u64| VideoInfo::new(VideoType::BlackNWhite, "f", 10, 24, 1280, 720, size, SUM.to_string()).unwrap();
    assert_eq!((make(0).total_frames(), make(0).unused_bytes()), (0, 0));
    assert_eq!((make(1).total_frames(), make(1).unused_bytes()), (1, 1151));
    assert_eq!((make(1152).total_frames(), make(1152).unused_bytes()), (1, 0));
    assert_eq!((make(1153).total_frames(), make(1153).unused_bytes()), (2, 1151));
}

#[test]
fn session_errors() {
    let sum = || SUM.to_string();
    assert_eq!(
        VideoInfo::new(VideoType::BlackNWhite, "f", 7, 24, 1280, 720, 10, sum()).unwrap_err(),
        ConfigError::IncompatibleDimensions
    );
    assert_eq!(
        VideoInfo::new(VideoType::BlackNWhite, "f", 0, 24, 1280, 720, 10, sum()).unwrap_err(),
        ConfigError::IncompatibleDimensions
    );
    assert_eq!(
        VideoInfo::new(VideoType::BlackNWhite, "a/..", 10, 24, 1280, 720, 10, sum()).unwrap_err(),
        ConfigError::NoFileName
    );
    assert_eq!(
        VideoInfo::new(VideoType::BlackNWhite, "a_name_that_is_longer_than_32_chars.bin", 10, 24, 1280, 720, 10, sum())
            .unwrap_err(),
        ConfigError::BadFileName
    );
    assert_eq!(
        VideoInfo::new(VideoType::BlackNWhite, "f", 10, 24, 1280, 720, 10, "abc".to_string()).unwrap_err(),
        ConfigError::BadChecksum
    );
    assert_eq!(
        VideoInfo::new(VideoType::BlackNWhite, "f", 10, 24, 1280, 720, u64::MAX, sum()).unwrap_err(),
        ConfigError::TooLarge
    );
}

#[test]
fn parsed_session_has_no_geometry() {
    let info = VideoInfo::from_parse(VideoType::Color, SUM.to_string(), "x".to_string(), 4, 7, 9);
    assert_eq!(info.total_frames(), 9);
    assert_eq!(info.unused_bytes(), 7);
    assert!(info.width.is_none() && info.height.is_none() && info.fps.is_none() && info.file_size.is_none());
}
