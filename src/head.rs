//! The header frame's record: 844 bits that describe the payload.
//!
//! Layout, in order: video type (4 bits), checksum (512 bits, 64 ASCII
//! characters), file name (256 bits, right-aligned after zero bits, at most
//! 32 ASCII characters), block size (8 bits), unused bytes (32 bits), total
//! frames (32 bits). Numbers are unsigned big-endian.

use vstd::prelude::*;
use vstd::utf8::is_ascii_chars;
use vstd::string::StrSliceExecFns;
use vstd::arithmetic::power2::lemma2_to64;
use vstd::arithmetic::div_mod::lemma_fundamental_div_mod_converse;
use crate::convert::{
    bits_of, bits_value, bytes_to_bits, text_of_bits, dec_to_bin, bin_to_dec,
    byte_to_bits, bin_to_str, lemma_value_bound, lemma_bytes_round_trip,
};
use crate::session::{VideoInfo, VideoType, type_code, type_of_code};

verus! {

/// Length of the header record in bits.
pub const HEAD_LENGTH: u32 = 844;

/// Errors in reading a header record.
#[derive(Debug, Clone, Copy, PartialEq, Eq, Structural)]
pub enum HeaderError {
    /// The type code names no video mode.
    UnknownVideoType,
}

/// The bytes of ASCII text.
pub open spec fn text_bytes(s: Seq<char>) -> Seq<u8> {
    s.map_values(|c: char| c as u8)
}

/// `n` false bits.
pub open spec fn zero_bits(n: nat) -> Seq<bool> {
    Seq::new(n, |i: int| false)
}

/// The header record of a session's fields.
pub open spec fn header_bits(
    t: VideoType,
    checksum: Seq<char>,
    filename: Seq<char>,
    pixel_size: nat,
    unused_bytes: nat,
    total_frames: nat,
) -> Seq<bool> {
    bits_of(type_code(t), 4) + bytes_to_bits(text_bytes(checksum)) + zero_bits((256 - 8 * filename.len()) as nat)
        + bytes_to_bits(text_bytes(filename)) + bits_of(pixel_size, 8) + bits_of(unused_bytes, 32) + bits_of(
        total_frames,
        32,
    )
}

/// The fields that a header record spells: mode (if its code names one),
/// checksum, file name, block size, unused bytes and total frames.
pub open spec fn header_fields(h: Seq<bool>) -> (Option<VideoType>, Seq<char>, Seq<char>, nat, nat, nat) {
    (
        type_of_code(bits_value(h.subrange(0, 4))),
        text_of_bits(h.subrange(4, 516)),
        text_of_bits(h.subrange(516, 772)),
        bits_value(h.subrange(772, 780)),
        bits_value(h.subrange(780, 812)),
        bits_value(h.subrange(812, 844)),
    )
}

proof fn lemma_bytes_to_bits_push(b: Seq<u8>, x: u8)
    ensures
        bytes_to_bits(b.push(x)) == bytes_to_bits(b) + bits_of(x as nat, 8),
{
    let l = bytes_to_bits(b.push(x));
    let r = bytes_to_bits(b) + bits_of(x as nat, 8);
    assert forall|i: int| 0 <= i < l.len() implies l[i] == r[i] by {
        if i >= 8 * b.len() {
            lemma_fundamental_div_mod_converse(i, 8, b.len() as int, i - 8 * b.len());
        }
    }
    assert(l =~= r);
}

/// Appends the eight bits of each character of ASCII text.
fn push_text_bits(out: &mut Vec<bool>, s: &str)
    requires
        is_ascii_chars(s@),
    ensures
        final(out)@ == old(out)@ + bytes_to_bits(text_bytes(s@)),
{
    let n = s.unicode_len();
    let mut i: usize = 0;
    let ghost start = out@;
    assert(text_bytes(s@).take(0) =~= Seq::<u8>::empty());
    assert(bytes_to_bits(Seq::<u8>::empty()) =~= Seq::<bool>::empty());
    assert(out@ =~= start + bytes_to_bits(text_bytes(s@).take(0)));
    while i < n
        invariant
            n == s@.len(),
            is_ascii_chars(s@),
            i <= n,
            out@ == start + bytes_to_bits(text_bytes(s@).take(i as int)),
        decreases n - i,
    {
        let c = s.get_ascii(i);
        let mut bits = byte_to_bits(&c);
        proof {
            lemma_bytes_to_bits_push(text_bytes(s@).take(i as int), c);
            assert(text_bytes(s@).take(i + 1) =~= text_bytes(s@).take(i as int).push(c));
        }
        out.append(&mut bits);
        i = i + 1;
        assert(out@ =~= start + bytes_to_bits(text_bytes(s@).take(i as int)));
    }
    assert(text_bytes(s@).take(n as int) =~= text_bytes(s@));
}

/// Builds the header record of a session.
pub fn gen_headpage(info: &VideoInfo) -> (r: Vec<bool>)
    requires
        info.header_ready(),
    ensures
        r@ == header_bits(
            info.video_type,
            info.checksum@,
            info.filename@,
            info.pixel_size as nat,
            info.unused_bytes as nat,
            info.total_frames as nat,
        ),
        r@.len() == HEAD_LENGTH,
{
    proof {
        lemma2_to64();
    }
    let code: u32 = match info.video_type {
        VideoType::BlackNWhite => 0,
        VideoType::GrayScale => 1,
        VideoType::Color => 2,
        VideoType::Color8 => 3,
        VideoType::Color16 => 4,
    };
    let mut out = dec_to_bin(code, 4);
    push_text_bits(&mut out, info.checksum.as_str());
    let pad: usize = 256 - 8 * info.filename.as_str().unicode_len();
    let mut i: usize = 0;
    let ghost before = out@;
    while i < pad
        invariant
            i <= pad,
            out@ == before + zero_bits(i as nat),
        decreases pad - i,
    {
        out.push(false);
        i = i + 1;
        assert(out@ =~= before + zero_bits(i as nat));
    }
    push_text_bits(&mut out, info.filename.as_str());
    let mut pixel_size_b = dec_to_bin(info.pixel_size as u32, 8);
    let mut unused_bytes_b = dec_to_bin(info.unused_bytes, 32);
    let mut total_frames_b = dec_to_bin(info.total_frames as u32, 32);
    out.append(&mut pixel_size_b);
    out.append(&mut unused_bytes_b);
    out.append(&mut total_frames_b);
    assert(out@ =~= header_bits(
        info.video_type,
        info.checksum@,
        info.filename@,
        info.pixel_size as nat,
        info.unused_bytes as nat,
        info.total_frames as nat,
    ));
    out
}

/// The `total_iter` bits of `bits` from `start` on.
fn parse_head_iterator(bits: &[bool], start: usize, total_iter: usize) -> (r: Vec<bool>)
    requires
        start + total_iter <= bits@.len(),
    ensures
        r@ == bits@.subrange(start as int, start + total_iter),
{
    let mut out: Vec<bool> = Vec::new();
    let mut i: usize = 0;
    let len = bits.len();
    while i < total_iter
        invariant
            start + total_iter <= bits@.len(),
            len == bits@.len(),
            i <= total_iter,
            out@ == bits@.subrange(start as int, start + i),
        decreases total_iter - i,
    {
        out.push(bits[start + i]);
        i = i + 1;
        assert(out@ =~= bits@.subrange(start as int, start + i));
    }
    out
}

/// Reads a session from the first 844 bits of a header frame.
pub fn parse_headpage(head_raw: &[bool]) -> (r: Result<VideoInfo, HeaderError>)
    requires
        head_raw@.len() >= HEAD_LENGTH,
    ensures
        ({
            let (t, checksum, filename, pixel_size, unused_bytes, total_frames) = header_fields(head_raw@);
            match r {
                Ok(info) => {
                    &&& t == Some(info.video_type)
                    &&& info.checksum@ == checksum
                    &&& info.filename@ == filename
                    &&& info.pixel_size == pixel_size
                    &&& info.unused_bytes == unused_bytes
                    &&& info.total_frames == total_frames
                    &&& info.file_size is None
                    &&& info.fps is None
                    &&& info.width is None
                    &&& info.height is None
                },
                Err(e) => t is None && e == HeaderError::UnknownVideoType,
            }
        }),
{
    let video_type_b = parse_head_iterator(head_raw, 0, 4);
    let checksum_b = parse_head_iterator(head_raw, 4, 512);
    let filename_b = parse_head_iterator(head_raw, 516, 256);
    let pixel_size_b = parse_head_iterator(head_raw, 772, 8);
    let unused_bytes_b = parse_head_iterator(head_raw, 780, 32);
    let total_frames_b = parse_head_iterator(head_raw, 812, 32);
    proof {
        lemma2_to64();
        lemma_value_bound(video_type_b@);
        lemma_value_bound(pixel_size_b@);
        lemma_value_bound(unused_bytes_b@);
        lemma_value_bound(total_frames_b@);
    }
    let checksum = bin_to_str(&checksum_b);
    let filename = bin_to_str(&filename_b);
    let video_type_d = bin_to_dec(&video_type_b);
    let pixel_size = bin_to_dec(&pixel_size_b) as u8;
    let unused_bytes = bin_to_dec(&unused_bytes_b);
    let total_frames = bin_to_dec(&total_frames_b) as usize;
    let video_type = if video_type_d == 0 {
        VideoType::BlackNWhite
    } else if video_type_d == 1 {
        VideoType::GrayScale
    } else if video_type_d == 2 {
        VideoType::Color
    } else if video_type_d == 3 {
        VideoType::Color8
    } else if video_type_d == 4 {
        VideoType::Color16
    } else {
        return Err(HeaderError::UnknownVideoType);
    };
    Ok(VideoInfo::from_parse(video_type, checksum, filename, pixel_size, unused_bytes, total_frames))
}

/// No character of the text is NUL.
pub open spec fn no_nul(s: Seq<char>) -> bool {
    forall|i: int| 0 <= i < s.len() ==> s[i] != '\0'
}

proof fn lemma_bytes_to_bits_concat(a: Seq<u8>, b: Seq<u8>)
    ensures
        bytes_to_bits(a + b) == bytes_to_bits(a) + bytes_to_bits(b),
{
    let l = bytes_to_bits(a + b);
    let r = bytes_to_bits(a) + bytes_to_bits(b);
    assert forall|j: int| 0 <= j < l.len() implies l[j] == r[j] by {
        if j >= 8 * a.len() {
            let k = j - 8 * a.len();
            lemma_fundamental_div_mod_converse(k, 8, k / 8, k % 8);
            lemma_fundamental_div_mod_converse(j, 8, a.len() + k / 8, k % 8);
        }
    }
    assert(l =~= r);
}

proof fn lemma_zero_bytes(k: nat)
    ensures
        zero_bits(8 * k) == bytes_to_bits(Seq::new(k, |i: int| 0u8)),
{
    let z = bytes_to_bits(Seq::new(k, |i: int| 0u8));
    assert forall|j: int| 0 <= j < 8 * k implies z[j] == false by {
        lemma_fundamental_div_mod_converse(j, 8, j / 8, j % 8);
        vstd::arithmetic::power2::lemma_pow2_pos((8 - 1 - j % 8) as nat);
    }
    assert(zero_bits(8 * k) =~= z);
}

proof fn lemma_filter_nonzero(b: Seq<u8>)
    requires
        forall|i: int| 0 <= i < b.len() ==> b[i] != 0,
    ensures
        b.filter(|x: u8| x != 0) == b,
    decreases b.len(),
{
    reveal(Seq::filter);
    if b.len() > 0 {
        lemma_filter_nonzero(b.drop_last());
        assert(b.drop_last().push(b.last()) =~= b);
    }
}

proof fn lemma_filter_zero(k: nat)
    ensures
        Seq::new(k, |i: int| 0u8).filter(|x: u8| x != 0) == Seq::<u8>::empty(),
    decreases k,
{
    reveal(Seq::filter);
    if k > 0 {
        lemma_filter_zero((k - 1) as nat);
        assert(Seq::new(k, |i: int| 0u8).drop_last() =~= Seq::new((k - 1) as nat, |i: int| 0u8));
    }
}

proof fn lemma_text_of_bytes(pad: nat, s: Seq<char>)
    requires
        is_ascii_chars(s),
        no_nul(s),
    ensures
        text_of_bits(bytes_to_bits(Seq::new(pad, |i: int| 0u8) + text_bytes(s))) == s,
{
    let z = Seq::new(pad, |i: int| 0u8);
    let tb = text_bytes(s);
    lemma_bytes_round_trip(z + tb);
    assert forall|i: int| 0 <= i < tb.len() implies tb[i] != 0 by {
        assert('\0' <= s[i] <= '\u{7f}');
    }
    lemma_filter_nonzero(tb);
    lemma_filter_zero(pad);
    Seq::filter_distributes_over_add(z, tb, |x: u8| x != 0);
    assert(Seq::<u8>::empty() + tb =~= tb);
    assert forall|i: int| 0 <= i < s.len() implies tb.map_values(|b: u8| b as char)[i] == s[i] by {
        assert('\0' <= s[i] <= '\u{7f}');
    }
    assert(tb.map_values(|b: u8| b as char) =~= s);
}

/// Reading a session's header record back gives its fields, where the
/// checksum and the file name hold no NUL characters (zero bytes read as
/// padding).
pub proof fn lemma_header_round_trip(
    t: VideoType,
    checksum: Seq<char>,
    filename: Seq<char>,
    pixel_size: u8,
    unused_bytes: u32,
    total_frames: u32,
)
    requires
        is_ascii_chars(checksum),
        checksum.len() == 64,
        no_nul(checksum),
        is_ascii_chars(filename),
        filename.len() <= 32,
        no_nul(filename),
    ensures
        header_bits(t, checksum, filename, pixel_size as nat, unused_bytes as nat, total_frames as nat).len()
            == HEAD_LENGTH,
        header_fields(header_bits(t, checksum, filename, pixel_size as nat, unused_bytes as nat, total_frames as nat))
            == (Some(t), checksum, filename, pixel_size as nat, unused_bytes as nat, total_frames as nat),
{
    lemma2_to64();
    let a = bits_of(type_code(t), 4);
    let b = bytes_to_bits(text_bytes(checksum));
    let k = (32 - filename.len()) as nat;
    let z = zero_bits((256 - 8 * filename.len()) as nat);
    let f = bytes_to_bits(text_bytes(filename));
    let p = bits_of(pixel_size as nat, 8);
    let u = bits_of(unused_bytes as nat, 32);
    let n = bits_of(total_frames as nat, 32);
    let h = header_bits(t, checksum, filename, pixel_size as nat, unused_bytes as nat, total_frames as nat);
    assert(h == a + b + z + f + p + u + n);
    assert(h.subrange(0, 4) =~= a);
    assert(h.subrange(4, 516) =~= b);
    assert(h.subrange(516, 772) =~= z + f);
    assert(h.subrange(772, 780) =~= p);
    assert(h.subrange(780, 812) =~= u);
    assert(h.subrange(812, 844) =~= n);
    crate::convert::lemma_bits_round_trip(type_code(t), 4);
    crate::convert::lemma_bits_round_trip(pixel_size as nat, 8);
    crate::convert::lemma_bits_round_trip(unused_bytes as nat, 32);
    crate::convert::lemma_bits_round_trip(total_frames as nat, 32);
    lemma_text_of_bytes(0, checksum);
    assert(Seq::new(0, |i: int| 0u8) + text_bytes(checksum) =~= text_bytes(checksum));
    lemma_text_of_bytes(k, filename);
    lemma_zero_bytes(k);
    lemma_bytes_to_bits_concat(Seq::new(k, |i: int| 0u8), text_bytes(filename));
    assert((256 - 8 * filename.len()) as nat == 8 * k);
}

} // verus!
