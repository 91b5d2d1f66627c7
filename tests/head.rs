use vidfile::head::{gen_headpage, parse_headpage, HeaderError, HEAD_LENGTH};
use vidfile::convert::dec_to_bin;
use vidfile::session::{VideoInfo, VideoType};

const SUM: &str = "2cf24dba5fb0a30e26e83b2ac5b9e29e1b161e5c1fa7425e73043362938b9824";

#[test]
fn header_has_fixed_layout() {
    let info = VideoInfo::from_parse(VideoType::Color, SUM.to_string(), "ab".to_string(), 10, 1151, 3);
    let h = gen_headpage(&info);
    assert_eq!(h.len(), HEAD_LENGTH as usize);
    assert_eq!(&h[0..4], &dec_to_bin(2, 4)[..]);
    assert!(h[516..756].iter().all(|b| !*b));
    assert_eq!(&h[756..764], &dec_to_bin(b'a' as u32, 8)[..]);
    assert_eq!(&h[772..780], &dec_to_bin(10, 8)[..]);
    assert_eq!(&h[780..812], &dec_to_bin(1151, 32)[..]);
    assert_eq!(&h[812..844], &dec_to_bin(3, 32)[..]);
}

#[test]
fn header_round_trip() {
    for (t, name) in [
        (VideoType::BlackNWhite, "data.bin"),
        (VideoType::Color, ""),
        (VideoType::Color16, "abcdefghijklmnopqrstuvwxyz012345"),
    ] {
        let info = VideoInfo::from_parse(t, SUM.to_string(), name.to_string(), 255, u32::MAX, 4_000_000_000);
        let back = parse_headpage(&gen_headpage(&info)).unwrap();
        assert_eq!(back.video_type, t);
        assert_eq!(back.checksum, SUM);
        assert_eq!(back.filename, name);
        assert_eq!(back.pixel_size, 255);
        assert_eq!(back.unused_bytes, u32::MAX);
        assert_eq!(back.total_frames, 4_000_000_000);
    }
}

#[test]
fn header_reads_only_the_first_844_bits() {
    let info = VideoInfo::from_parse(VideoType::GrayScale, SUM.to_string(), "x".to_string(), 1, 2, 3);
    let mut h = gen_headpage(&info);
    h.extend(vec![true; 100]);
    let back = parse_headpage(&h).unwrap();
    assert_eq!(back.video_type, VideoType::GrayScale);
    assert_eq!(back.filename, "x");
}

#[test]
fn header_unknown_type_code() {
    let info = VideoInfo::from_parse(VideoType::BlackNWhite, SUM.to_string(), "x".to_string(), 1, 2, 3);
    let mut h = gen_headpage(&info);
    h[0] = true; // code 8
    assert_eq!(parse_headpage(&h).unwrap_err(), HeaderError::UnknownVideoType);
    h[3] = true; // code 9
    assert_eq!(parse_headpage(&h).unwrap_err(), HeaderError::UnknownVideoType);
}
