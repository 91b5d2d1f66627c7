use vidfile::convert::{bin_to_dec, bin_to_str, bits_to_byte, byte_to_bits, dec_to_bin, pages_to_bytes};

fn bits(s: &str) -> Vec<bool> {
    s.chars().map(|c| c == '1').collect()
}

#[test]
fn dec_to_bin_pads_on_the_left() {
    assert_eq!(dec_to_bin(5, 8), bits("00000101"));
    assert_eq!(dec_to_bin(2, 4), bits("0010"));
    assert_eq!(dec_to_bin(0, 3), bits("000"));
    assert_eq!(dec_to_bin(u32::MAX, 32), vec![true; 32]);
}

#[test]
fn dec_to_bin_wider_than_u32() {
    let r = dec_to_bin(1, 40);
    assert_eq!(r.len(), 40);
    assert!(r[..39].iter().all(|b| !*b));
    assert!(r[39]);
}

#[test]
fn bin_to_dec_reads_big_endian() {
    assert_eq!(bin_to_dec(&bits("0010")), 2);
    assert_eq!(bin_to_dec(&bits("11111111")), 255);
    assert_eq!(bin_to_dec(&bits("0000000000000000000000000000000000000001")), 1);
    assert_eq!(bin_to_dec(&vec![true; 32]), u32::MAX);
}

#[test]
fn fixed_width_round_trip() {
    for n in 1..=32usize {
        let top: u64 = 1u64 << n;
        for x in [0u64, 1, top / 2, top - 1] {
            let b = dec_to_bin(x as u32, n);
            assert_eq!(b.len(), n);
            assert_eq!(bin_to_dec(&b) as u64, x);
        }
    }
}

#[test]
fn byte_round_trip_all_values() {
    for v in 0..=255u8 {
        let b = byte_to_bits(&v);
        assert_eq!(b.len(), 8);
        assert_eq!(bits_to_byte(&b), v);
    }
    assert_eq!(byte_to_bits(&0x81), bits("10000001"));
}

#[test]
fn pages_to_bytes_packs_eight_bits() {
    assert_eq!(pages_to_bytes(&bits("0100000101000010")), vec![0x41, 0x42]);
    assert_eq!(pages_to_bytes(&[]), Vec::<u8>::new());
}

#[test]
fn bin_to_str_skips_zero_bytes() {
    let mut b = bits("00000000");
    b.extend(bits("01100001"));
    b.extend(bits("00000000"));
    b.extend(bits("01100010"));
    assert_eq!(bin_to_str(&b), "ab");
    assert_eq!(bin_to_str(&bits("0000000000000000")), "");
}
