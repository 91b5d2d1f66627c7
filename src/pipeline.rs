//! The encode and decode pipelines, one frame at a time: the header frame,
//! the payload frames, their reading back, and the integrity verdict.
//! Reading and writing video, files and checksums is left to the caller.

use vstd::prelude::*;
use vstd::arithmetic::div_mod::{lemma_div_multiples_vanish, lemma_fundamental_div_mod, lemma_fundamental_div_mod_converse};
use crate::convert::{bits_to_bytes, bytes_to_bits, byte_to_bits, pages_to_bytes, lemma_bytes_round_trip};
use crate::head::{
    HEAD_LENGTH, HeaderError, gen_headpage, parse_headpage, header_bits, header_fields, no_nul,
    lemma_header_round_trip,
};
use vstd::utf8::is_ascii_chars;
use crate::raster::{
    Frame, RasterError, capacity, decode_frame, pad_bits, raster, sampled_bits, tiles, block_count,
    lemma_raster_round_trip,
};
use crate::session::{
    ConfigError, VideoInfo, VideoType, block_fits, byte_ratio, bits_per_block, geometry_bytes, is_supported,
    max_pixel_size, lemma_u32_product, frames_needed, padding_bytes,
};

verus! {

/// Errors of a run.
#[derive(Debug, Clone, Copy, PartialEq, Eq, Structural)]
pub enum StreamError {
    /// The session's parameters do not fit together.
    Config(ConfigError),
    /// A frame could not be painted or read.
    Raster(RasterError),
    /// The header frame does not hold a header.
    Header(HeaderError),
    /// No block size fits the header on a frame of this size.
    NoHeaderBlock,
    /// A frame's bits do not match the session's frame layout.
    Desync,
}

/// Outcome of the final integrity check.
#[derive(Debug, Clone, Copy, PartialEq, Eq, Structural)]
pub enum Verdict {
    Intact,
    Corrupted,
}

/// A frame geometry that the payload frames of mode `t` can use: blocks
/// tile the frame, the frame holds a whole, non-zero number of bytes, and
/// its image and page fit in memory and in a `u32` bit count.
pub open spec fn payload_geometry(t: VideoType, s: int, w: int, h: int) -> bool {
    &&& is_supported(t)
    &&& tiles(s, w, h)
    &&& w >= 0 && h >= 0
    &&& 3 * w * h <= usize::MAX
    &&& geometry_bytes(t, s as nat, w as nat, h as nat) is Some
    &&& 8 * geometry_bytes(t, s as nat, w as nat, h as nat)->Some_0 <= u32::MAX
}

/// The bits of a frame's payload bytes, padded with zero bits to
/// `per_frame` bytes.
pub open spec fn payload_page(chunk: Seq<u8>, per_frame: nat) -> Seq<bool> {
    pad_bits(bytes_to_bits(chunk), 8 * per_frame as int)
}

/// Bytes `k * per_frame` up to `(k + 1) * per_frame` of the file, or to its end.
pub open spec fn payload_chunk(b: Seq<u8>, k: int, per_frame: int) -> Seq<u8> {
    let end = if (k + 1) * per_frame <= b.len() { (k + 1) * per_frame } else { b.len() as int };
    b.subrange(k * per_frame, end)
}

/// The file bytes that a payload frame's bits give back: on the last frame
/// the trailing `unused` bytes of padding are dropped.
pub open spec fn recovered_bytes(bits: Seq<bool>, last: bool, unused: nat) -> Seq<u8> {
    if last {
        bits_to_bytes(bits.take(bits.len() - 8 * unused))
    } else {
        bits_to_bytes(bits)
    }
}

/// A frame's capacity in bits is eight times its payload bytes.
pub proof fn lemma_capacity_bytes(t: VideoType, s: int, w: int, h: int)
    requires
        is_supported(t),
        tiles(s, w, h),
        w >= 0,
        h >= 0,
        geometry_bytes(t, s as nat, w as nat, h as nat) is Some,
    ensures
        capacity(t, s, w, h) == 8 * geometry_bytes(t, s as nat, w as nat, h as nat)->Some_0,
{
    let a = w / s;
    let b = h / s;
    let num = byte_ratio(t).0 as int;
    lemma_fundamental_div_mod(w, s);
    lemma_fundamental_div_mod(h, s);
    assert(w * h * num == (s * s) * (a * b * num)) by (nonlinear_arith)
        requires
            w == s * a,
            h == s * b,
    ;
    assert(s * s > 0) by (nonlinear_arith)
        requires
            s > 0,
    ;
    lemma_div_multiples_vanish(a * b * num, s * s);
    let q = (w * h * num) / (s * s);
    lemma_fundamental_div_mod(q, 8);
    assert(q == a * b * num);
    assert(capacity(t, s, w, h) == a * b * bits_per_block(t));
}

/// Bits of a frame's payload bytes, padded with zero bits to
/// `bytes_per_frame` bytes (the source ran out mid-frame).
pub fn payload_bits(chunk: &[u8], bytes_per_frame: usize) -> (r: Vec<bool>)
    requires
        chunk@.len() <= bytes_per_frame,
        8 * bytes_per_frame <= usize::MAX,
    ensures
        r@ == payload_page(chunk@, bytes_per_frame as nat),
{
    let ghost page = payload_page(chunk@, bytes_per_frame as nat);
    let mut out: Vec<bool> = Vec::new();
    let mut i: usize = 0;
    while i < bytes_per_frame
        invariant
            chunk@.len() <= bytes_per_frame,
            8 * bytes_per_frame <= usize::MAX,
            page == payload_page(chunk@, bytes_per_frame as nat),
            i <= bytes_per_frame,
            out@.len() == 8 * i,
            forall|j: int| 0 <= j < out@.len() ==> out@[j] == page[j],
        decreases bytes_per_frame - i,
    {
        let mut bits = if i < chunk.len() {
            byte_to_bits(&chunk[i])
        } else {
            let mut z: Vec<bool> = Vec::new();
            let mut n: usize = 0;
            while n < 8
                invariant
                    n <= 8,
                    z@ == Seq::new(n as nat, |j: int| false),
                decreases 8 - n,
            {
                z.push(false);
                n = n + 1;
                assert(z@ =~= Seq::new(n as nat, |j: int| false));
            }
            z
        };
        let ghost old_out = out@;
        out.append(&mut bits);
        proof {
            assert forall|j: int| 8 * i <= j < 8 * i + 8 implies out@[j] == page[j] by {
                lemma_fundamental_div_mod_converse(j, 8, i as int, j - 8 * i);
            }
        }
        i = i + 1;
    }
    assert(out@ =~= page);
    out
}

/// The frame that shows one frame's payload bytes, `chunk`, at the
/// session's block size and mode. A chunk longer than the frame holds is
/// refused, never cut.
pub fn payload_frame(info: &VideoInfo, chunk: &[u8]) -> (r: Result<Frame, StreamError>)
    requires
        info.width is Some,
        info.height is Some,
    ensures
        ({
            let t = info.video_type;
            let s = info.pixel_size as int;
            let w = info.width->Some_0 as int;
            let h = info.height->Some_0 as int;
            let per_frame = geometry_bytes(t, s as nat, w as nat, h as nat)->Some_0;
            &&& r is Ok <==> payload_geometry(t, s, w, h) && chunk@.len() <= per_frame
            &&& payload_geometry(t, s, w, h) && chunk@.len() > per_frame ==> r == Err::<Frame, StreamError>(
                StreamError::Raster(RasterError::TooManyBits),
            )
            &&& r is Ok ==> {
                &&& r->Ok_0.width == w
                &&& r->Ok_0.height == h
                &&& r->Ok_0.pixel_size == s
                &&& r->Ok_0.data@ == payload_page(chunk@, per_frame)
                &&& r->Ok_0.image@ == raster(t, payload_page(chunk@, per_frame), s, w, h)
            }
        }),
{
    let width = info.width();
    let height = info.height();
    let ghost t = info.video_type;
    let ghost s = info.pixel_size as int;
    let ghost w = width as int;
    let ghost h = height as int;
    if !(info.video_type == VideoType::BlackNWhite || info.video_type == VideoType::Color) {
        return Err(StreamError::Raster(RasterError::UnsupportedMode));
    }
    let ps = info.pixel_size as u32;
    if ps == 0 || width % ps != 0 || height % ps != 0 {
        return Err(StreamError::Raster(RasterError::IncompatibleDimensions));
    }
    proof {
        lemma_u32_product(width, height);
    }
    let total_pixels: u64 = width as u64 * height as u64;
    proof {
        lemma_fundamental_div_mod(usize::MAX as int, 3);
        assert(3 * w * h == 3 * total_pixels) by (nonlinear_arith)
            requires
                total_pixels == w * h,
        ;
    }
    if total_pixels > (usize::MAX / 3) as u64 {
        return Err(StreamError::Config(ConfigError::TooLarge));
    }
    let per_frame = match info.bytes_per_frame() {
        Ok(v) => v,
        Err(e) => return Err(StreamError::Config(e)),
    };
    if per_frame > (u32::MAX / 8) as u64 {
        return Err(StreamError::Config(ConfigError::TooLarge));
    }
    if chunk.len() as u64 > per_frame {
        return Err(StreamError::Raster(RasterError::TooManyBits));
    }
    let bits = payload_bits(chunk, per_frame as usize);
    let mut frame = Frame::new(bits, info.pixel_size, width, height);
    proof {
        lemma_capacity_bytes(t, s, w, h);
    }
    match frame.compute_colors(info.video_type, (8 * per_frame) as u32) {
        Ok(()) => {},
        Err(e) => return Err(StreamError::Raster(e)),
    }
    assert(pad_bits(payload_page(chunk@, per_frame as nat), (8 * per_frame) as int) =~= payload_page(chunk@, per_frame as nat));
    Ok(frame)
}

/// Payload bytes per frame of a geometry.
pub open spec fn per_frame_of(t: VideoType, s: int, w: int, h: int) -> nat {
    geometry_bytes(t, s as nat, w as nat, h as nat)->Some_0
}

/// The bytes that payload frame `k` of file `b` gives back after it is
/// painted at block size `s` in mode `t` and read again.
pub open spec fn recovered_frame(b: Seq<u8>, t: VideoType, s: int, w: int, h: int, k: int) -> Seq<u8> {
    let pf = per_frame_of(t, s, w, h);
    let n = frames_needed(b.len(), pf);
    let page = payload_page(payload_chunk(b, k, pf as int), pf);
    recovered_bytes(sampled_bits(t, raster(t, page, s, w, h), s, w, h), k == n - 1, padding_bytes(b.len(), pf) as nat)
}

/// The bytes that the first `m` payload frames of `b` give back, in order.
pub open spec fn recovered_prefix(b: Seq<u8>, t: VideoType, s: int, w: int, h: int, m: int) -> Seq<u8>
    decreases m,
{
    if m <= 0 {
        Seq::empty()
    } else {
        recovered_prefix(b, t, s, w, h, m - 1) + recovered_frame(b, t, s, w, h, m - 1)
    }
}

proof fn lemma_frame_round_trip(b: Seq<u8>, t: VideoType, s: int, w: int, h: int, k: int)
    requires
        payload_geometry(t, s, w, h),
        per_frame_of(t, s, w, h) > 0,
        0 <= k < frames_needed(b.len(), per_frame_of(t, s, w, h)),
    ensures
        recovered_frame(b, t, s, w, h, k) == payload_chunk(b, k, per_frame_of(t, s, w, h) as int),
{
    let pf = per_frame_of(t, s, w, h) as int;
    let len = b.len() as int;
    let n = frames_needed(b.len(), pf as nat) as int;
    let chunk = payload_chunk(b, k, pf);
    let page = payload_page(chunk, pf as nat);
    lemma_capacity_bytes(t, s, w, h);
    lemma_fundamental_div_mod(len, pf);
    let q = len / pf;
    let rest = len % pf;
    assert(n * pf >= len && (n - 1) * pf <= len) by (nonlinear_arith)
        requires
            len == pf * q + rest,
            0 <= rest < pf,
            n == if rest == 0 { q } else { q + 1 },
    ;
    assert(k * pf <= (n - 1) * pf) by (nonlinear_arith)
        requires
            k <= n - 1,
            pf > 0,
    ;
    let unused = padding_bytes(b.len(), pf as nat);
    if k < n - 1 {
        assert((k + 1) * pf <= (n - 1) * pf) by (nonlinear_arith)
            requires
                k + 1 <= n - 1,
                pf > 0,
        ;
        assert((k + 1) * pf <= len);
        assert(0 <= k * pf <= (k + 1) * pf) by (nonlinear_arith)
            requires
                k >= 0,
                pf > 0,
        ;
        assert(chunk == b.subrange(k * pf, (k + 1) * pf));
        assert(chunk.len() == (k + 1) * pf - k * pf);
        assert(chunk.len() == pf) by (nonlinear_arith)
            requires
                chunk.len() == (k + 1) * pf - k * pf,
        ;
    } else {
        assert(chunk.len() == len - k * pf);
        assert(unused == pf * n - len);
        assert(8 * pf - 8 * unused == 8 * chunk.len()) by (nonlinear_arith)
            requires
                k == n - 1,
                unused == pf * n - len,
                chunk.len() == len - k * pf,
        ;
    }
    assert(page.len() == 8 * pf);
    lemma_raster_round_trip(t, page, s, w, h);
    let cut = if k == n - 1 { page.take(page.len() - 8 * (unused as nat)) } else { page };
    assert(cut =~= bytes_to_bits(chunk));
    lemma_bytes_round_trip(chunk);
}

/// Painting every payload frame of a file and reading them back, in
/// order, gives back the file: frame `k` holds bytes `k * per_frame` on, and
/// the padding of the last frame is dropped.
pub proof fn lemma_payload_round_trip(b: Seq<u8>, t: VideoType, s: int, w: int, h: int)
    requires
        payload_geometry(t, s, w, h),
        per_frame_of(t, s, w, h) > 0,
    ensures
        recovered_prefix(b, t, s, w, h, frames_needed(b.len(), per_frame_of(t, s, w, h)) as int) == b,
{
    let pf = per_frame_of(t, s, w, h) as int;
    let len = b.len() as int;
    let n = frames_needed(b.len(), pf as nat) as int;
    lemma_fundamental_div_mod(len, pf);
    let q = len / pf;
    let rest = len % pf;
    assert(n * pf >= len && (n - 1) * pf <= len && n >= 0) by (nonlinear_arith)
        requires
            len == pf * q + rest,
            0 <= rest < pf,
            q >= 0,
            n == if rest == 0 { q } else { q + 1 },
    ;
    lemma_prefix_round_trip(b, t, s, w, h, n);
    assert(b.subrange(0, len) =~= b);
}

proof fn lemma_prefix_round_trip(b: Seq<u8>, t: VideoType, s: int, w: int, h: int, m: int)
    requires
        payload_geometry(t, s, w, h),
        per_frame_of(t, s, w, h) > 0,
        0 <= m <= frames_needed(b.len(), per_frame_of(t, s, w, h)),
        (m - 1) * per_frame_of(t, s, w, h) <= b.len(),
    ensures
        recovered_prefix(b, t, s, w, h, m) == b.subrange(
            0,
            if m * per_frame_of(t, s, w, h) <= b.len() { m * per_frame_of(t, s, w, h) } else { b.len() as int },
        ),
    decreases m,
{
    let pf = per_frame_of(t, s, w, h) as int;
    if m > 0 {
        assert((m - 2) * pf <= (m - 1) * pf) by (nonlinear_arith)
            requires
                pf > 0,
        ;
        assert((m - 1) * pf == m * pf - pf) by (nonlinear_arith);
        lemma_prefix_round_trip(b, t, s, w, h, m - 1);
        lemma_frame_round_trip(b, t, s, w, h, m - 1);
        assert(recovered_prefix(b, t, s, w, h, m) =~= b.subrange(
            0,
            if m * pf <= b.len() { m * pf } else { b.len() as int },
        ));
    } else {
        assert(m * pf == 0) by (nonlinear_arith)
            requires
                m == 0,
        ;
        assert(b.subrange(0, 0) =~= Seq::<u8>::empty());
    }
}

/// `s` is the header's block edge on a `w x h` frame: the largest edge
/// that tiles the frame with more blocks than the header has bits.
pub open spec fn is_header_block(w: nat, h: nat, s: nat) -> bool {
    &&& block_fits(HEAD_LENGTH as nat, w, h, s)
    &&& forall|t: nat| s < t ==> !#[trigger] block_fits(HEAD_LENGTH as nat, w, h, t)
}

proof fn lemma_blocks_area(s: int, w: int, h: int)
    requires
        tiles(s, w, h),
        w >= 0,
        h >= 0,
    ensures
        block_count(s, w, h) == (w * h) / (s * s),
{
    let a = w / s;
    let b = h / s;
    lemma_fundamental_div_mod(w, s);
    lemma_fundamental_div_mod(h, s);
    assert(w * h == (s * s) * (a * b)) by (nonlinear_arith)
        requires
            w == s * a,
            h == s * b,
    ;
    assert(s * s > 0) by (nonlinear_arith)
        requires
            s > 0,
    ;
    lemma_div_multiples_vanish(a * b, s * s);
}

/// Reading back the header frame painted at the header's block size gives
/// the session's header fields, where the checksum and the file name hold
/// no NUL characters.
pub proof fn lemma_header_frame_round_trip(
    t: VideoType,
    checksum: Seq<char>,
    filename: Seq<char>,
    pixel_size: u8,
    unused_bytes: u32,
    total_frames: u32,
    w: nat,
    h: nat,
    s: nat,
)
    requires
        is_header_block(w, h, s),
        is_ascii_chars(checksum),
        checksum.len() == 64,
        no_nul(checksum),
        is_ascii_chars(filename),
        filename.len() <= 32,
        no_nul(filename),
    ensures
        ({
            let bits = header_bits(t, checksum, filename, pixel_size as nat, unused_bytes as nat, total_frames as nat);
            let page = pad_bits(bits, block_count(s as int, w as int, h as int));
            let image = raster(VideoType::BlackNWhite, page, s as int, w as int, h as int);
            header_fields(sampled_bits(VideoType::BlackNWhite, image, s as int, w as int, h as int))
                == (Some(t), checksum, filename, pixel_size as nat, unused_bytes as nat, total_frames as nat)
        }),
{
    let bits = header_bits(t, checksum, filename, pixel_size as nat, unused_bytes as nat, total_frames as nat);
    let n = block_count(s as int, w as int, h as int);
    let page = pad_bits(bits, n);
    lemma_header_round_trip(t, checksum, filename, pixel_size, unused_bytes, total_frames);
    lemma_blocks_area(s as int, w as int, h as int);
    assert(capacity(VideoType::BlackNWhite, s as int, w as int, h as int) == n) by (nonlinear_arith)
        requires
            capacity(VideoType::BlackNWhite, s as int, w as int, h as int) == n * 1,
    ;
    lemma_raster_round_trip(VideoType::BlackNWhite, page, s as int, w as int, h as int);
    assert(page.subrange(0, 4) =~= bits.subrange(0, 4));
    assert(page.subrange(4, 516) =~= bits.subrange(4, 516));
    assert(page.subrange(516, 772) =~= bits.subrange(516, 772));
    assert(page.subrange(772, 780) =~= bits.subrange(772, 780));
    assert(page.subrange(780, 812) =~= bits.subrange(780, 812));
    assert(page.subrange(812, 844) =~= bits.subrange(812, 844));
}

/// The header frame of a session: its header record painted black and
/// white at the header's block size.
pub fn header_frame(info: &VideoInfo) -> (r: Result<Frame, StreamError>)
    requires
        info.header_ready(),
        info.width is Some,
        info.height is Some,
    ensures
        ({
            let w = info.width->Some_0 as nat;
            let h = info.height->Some_0 as nat;
            let bits = header_bits(
                info.video_type,
                info.checksum@,
                info.filename@,
                info.pixel_size as nat,
                info.unused_bytes as nat,
                info.total_frames as nat,
            );
            &&& !is_supported(info.video_type) ==> r == Err::<Frame, StreamError>(
                StreamError::Raster(RasterError::UnsupportedMode),
            )
            &&& is_supported(info.video_type) && (forall|s: nat| !is_header_block(w, h, s)) ==> r == Err::<
                Frame,
                StreamError,
            >(StreamError::NoHeaderBlock)
            &&& r is Ok ==> {
                let f = r->Ok_0;
                &&& is_header_block(w, h, f.pixel_size as nat)
                &&& f.width == w
                &&& f.height == h
                &&& f.data@ == pad_bits(bits, block_count(f.pixel_size as int, w as int, h as int))
                &&& f.image@ == raster(VideoType::BlackNWhite, f.data@, f.pixel_size as int, w as int, h as int)
            }
            &&& (is_supported(info.video_type) && exists|s: nat|
                is_header_block(w, h, s) && s <= 255 && 3 * w * h <= usize::MAX && block_count(s as int, w as int, h as int)
                    <= u32::MAX) ==> r is Ok
        }),
{
    if !(info.video_type == VideoType::BlackNWhite || info.video_type == VideoType::Color) {
        return Err(StreamError::Raster(RasterError::UnsupportedMode));
    }
    let width = info.width();
    let height = info.height();
    let ghost w = width as nat;
    let ghost h = height as nat;
    let s = match max_pixel_size(HEAD_LENGTH, width, height) {
        Some(s) => s,
        None => {
            assert forall|t: nat| !is_header_block(w, h, t) by {
                if is_header_block(w, h, t) {
                    assert(!block_fits(HEAD_LENGTH as nat, w, h, t));
                }
            }
            return Err(StreamError::NoHeaderBlock);
        },
    };
    assert(is_header_block(w, h, s as nat));
    proof {
        assert forall|t: nat| is_header_block(w, h, t) implies t == s by {
            if t < s {
                assert(!block_fits(HEAD_LENGTH as nat, w, h, s as nat));
            } else if t > s {
                assert(!block_fits(HEAD_LENGTH as nat, w, h, t));
            }
        }
        lemma_u32_product(width, height);
        lemma_fundamental_div_mod(usize::MAX as int, 3);
        assert(3 * w * h == 3 * (w * h)) by (nonlinear_arith);
    }
    if s > 255 {
        return Err(StreamError::Config(ConfigError::TooLarge));
    }
    let total_pixels: u64 = width as u64 * height as u64;
    if total_pixels > (usize::MAX / 3) as u64 {
        return Err(StreamError::Config(ConfigError::TooLarge));
    }
    proof {
        lemma_blocks_area(s as int, w as int, h as int);
        lemma_u32_product(s, s);
        vstd::arithmetic::mul::lemma_mul_strictly_positive(s as int, s as int);
    }
    let blocks: u64 = total_pixels / (s as u64 * s as u64);
    if blocks > u32::MAX as u64 {
        return Err(StreamError::Config(ConfigError::TooLarge));
    }
    let head = gen_headpage(info);
    let mut frame = Frame::new(head, s as u8, width, height);
    proof {
        assert(blocks == (w * h) / (s as nat * s as nat));
        assert(block_count(s as int, w as int, h as int) == blocks);
        assert(capacity(VideoType::BlackNWhite, s as int, w as int, h as int) == blocks) by (nonlinear_arith)
            requires
                capacity(VideoType::BlackNWhite, s as int, w as int, h as int) == block_count(
                    s as int,
                    w as int,
                    h as int,
                ) * 1,
                block_count(s as int, w as int, h as int) == blocks,
        ;
    }
    match frame.compute_colors(VideoType::BlackNWhite, blocks as u32) {
        Ok(()) => {},
        Err(e) => return Err(StreamError::Raster(e)),
    }
    Ok(frame)
}

/// Reads the session from a header frame of `width x height` pixels.
pub fn read_header(pixels: &[u8], width: u32, height: u32) -> (r: Result<VideoInfo, StreamError>)
    requires
        pixels@.len() == 3 * width * height,
    ensures
        (forall|s: nat| !is_header_block(width as nat, height as nat, s)) <==> r == Err::<VideoInfo, StreamError>(
            StreamError::NoHeaderBlock,
        ),
        r is Ok ==> exists|s: nat|
            {
                let (t, checksum, filename, pixel_size, unused_bytes, total_frames) = header_fields(
                    sampled_bits(VideoType::BlackNWhite, pixels@, s as int, width as int, height as int),
                );
                &&& #[trigger] is_header_block(width as nat, height as nat, s)
                &&& t == Some(r->Ok_0.video_type)
                &&& r->Ok_0.checksum@ == checksum
                &&& r->Ok_0.filename@ == filename
                &&& r->Ok_0.pixel_size == pixel_size
                &&& r->Ok_0.unused_bytes == unused_bytes
                &&& r->Ok_0.total_frames == total_frames
            },
        r is Err && r != Err::<VideoInfo, StreamError>(StreamError::NoHeaderBlock) ==> r == Err::<
            VideoInfo,
            StreamError,
        >(StreamError::Header(HeaderError::UnknownVideoType)),
        r == Err::<VideoInfo, StreamError>(StreamError::Header(HeaderError::UnknownVideoType)) <==> exists|s: nat|
            #[trigger] is_header_block(width as nat, height as nat, s) && header_fields(
                sampled_bits(VideoType::BlackNWhite, pixels@, s as int, width as int, height as int),
            ).0 is None,
        forall|s: nat|
            #[trigger] is_header_block(width as nat, height as nat, s) && header_fields(
                sampled_bits(VideoType::BlackNWhite, pixels@, s as int, width as int, height as int),
            ).0 is Some ==> r is Ok,
{
    let ghost w = width as nat;
    let ghost h = height as nat;
    let s = match max_pixel_size(HEAD_LENGTH, width, height) {
        Some(s) => s,
        None => {
            assert forall|t: nat| !is_header_block(w, h, t) by {
                if is_header_block(w, h, t) {
                    assert(!block_fits(HEAD_LENGTH as nat, w, h, t));
                }
            }
            return Err(StreamError::NoHeaderBlock);
        },
    };
    assert(is_header_block(w, h, s as nat));
    proof {
        assert forall|t: nat| is_header_block(w, h, t) implies t == s by {
            if t < s {
                assert(!block_fits(HEAD_LENGTH as nat, w, h, s as nat));
            } else if t > s {
                assert(!block_fits(HEAD_LENGTH as nat, w, h, t));
            }
        }
    }
    let bits = match decode_frame(pixels, VideoType::BlackNWhite, s, width, height) {
        Ok(b) => b,
        Err(e) => return Err(StreamError::Raster(e)),
    };
    proof {
        lemma_blocks_area(s as int, w as int, h as int);
    }
    match parse_headpage(&bits) {
        Ok(info) => Ok(info),
        Err(e) => Err(StreamError::Header(e)),
    }
}

/// The file bytes that a payload frame of `width x height` pixels carries,
/// read at the session's block size and mode; on the last frame the
/// session's unused bytes of padding are dropped. The frame's bits must
/// make whole bytes, and the last frame must hold its padding.
pub fn frame_payload(info: &VideoInfo, pixels: &[u8], width: u32, height: u32, last: bool) -> (r: Result<Vec<u8>, StreamError>)
    requires
        pixels@.len() == 3 * width * height,
    ensures
        ({
            let t = info.video_type;
            let s = info.pixel_size as int;
            let bits = sampled_bits(t, pixels@, s, width as int, height as int);
            let fits = bits.len() % 8 == 0 && (last ==> 8 * info.unused_bytes <= bits.len());
            &&& !is_supported(t) ==> r == Err::<Vec<u8>, StreamError>(StreamError::Raster(RasterError::UnsupportedMode))
            &&& is_supported(t) && s == 0 ==> r == Err::<Vec<u8>, StreamError>(
                StreamError::Raster(RasterError::IncompatibleDimensions),
            )
            &&& is_supported(t) && s > 0 && !fits ==> r == Err::<Vec<u8>, StreamError>(StreamError::Desync)
            &&& is_supported(t) && s > 0 && fits ==> r is Ok && r->Ok_0@ == recovered_bytes(
                bits,
                last,
                info.unused_bytes as nat,
            )
        }),
{
    let mut bits = match decode_frame(pixels, info.video_type, info.pixel_size as u32, width, height) {
        Ok(b) => b,
        Err(e) => return Err(StreamError::Raster(e)),
    };
    if bits.len() % 8 != 0 {
        return Err(StreamError::Desync);
    }
    if last {
        let drop: u64 = 8 * info.unused_bytes as u64;
        if drop > bits.len() as u64 {
            return Err(StreamError::Desync);
        }
        let keep: usize = bits.len() - drop as usize;
        proof {
            lemma_fundamental_div_mod(bits@.len() as int, 8);
            lemma_fundamental_div_mod_converse(keep as int, 8, (bits@.len() / 8 - info.unused_bytes) as int, 0);
        }
        bits.truncate(keep);
    }
    Ok(pages_to_bytes(&bits))
}

/// The byte range `start..end` of the file that payload frame `k` holds,
/// and whether it is the last frame.
pub fn payload_range(file_size: u64, per_frame: u64, k: u64) -> (r: (u64, u64, bool))
    requires
        per_frame > 0,
        k < frames_needed(file_size as nat, per_frame as nat),
    ensures
        r.0 == k * per_frame,
        r.1 == if (k + 1) * per_frame <= file_size { (k + 1) * per_frame } else { file_size as int },
        r.2 == (k + 1 == frames_needed(file_size as nat, per_frame as nat)),
        forall|b: Seq<u8>|
            b.len() == file_size ==> #[trigger] payload_chunk(b, k as int, per_frame as int) == b.subrange(
                r.0 as int,
                r.1 as int,
            ),
{
    let ghost fs = file_size as int;
    let ghost pf = per_frame as int;
    let ghost n = frames_needed(file_size as nat, per_frame as nat) as int;
    proof {
        lemma_fundamental_div_mod(fs, pf);
        let q = fs / pf;
        let rest = fs % pf;
        assert(k * pf <= fs) by (nonlinear_arith)
            requires
                fs == pf * q + rest,
                0 <= rest < pf,
                n == if rest == 0 { q } else { q + 1 },
                0 <= k < n,
        ;
        assert((k + 1) * pf >= fs <==> k + 1 == n) by (nonlinear_arith)
            requires
                fs == pf * q + rest,
                0 <= rest < pf,
                n == if rest == 0 { q } else { q + 1 },
                0 <= k < n,
                pf > 0,
        ;
        assert((k + 1) * pf == k * pf + pf) by (nonlinear_arith);
    }
    let start = k * per_frame;
    let rest = file_size - start;
    let end = if rest >= per_frame { start + per_frame } else { file_size };
    let last = rest <= per_frame;
    (start, end, last)
}

/// Byte offset in the extracted file of payload frame `k`'s bytes, where a
/// frame read at the session's block size and mode holds a whole number of
/// bytes.
pub fn payload_offset(info: &VideoInfo, width: u32, height: u32, k: u64) -> (r: Result<u64, StreamError>)
    ensures
        ({
            let t = info.video_type;
            let s = info.pixel_size as int;
            let c = capacity(t, s, width as int, height as int);
            &&& !is_supported(t) ==> r == Err::<u64, StreamError>(StreamError::Raster(RasterError::UnsupportedMode))
            &&& is_supported(t) && s == 0 ==> r == Err::<u64, StreamError>(
                StreamError::Raster(RasterError::IncompatibleDimensions),
            )
            &&& is_supported(t) && s > 0 && c > u64::MAX ==> r == Err::<u64, StreamError>(
                StreamError::Config(ConfigError::TooLarge),
            )
            &&& is_supported(t) && s > 0 && c <= u64::MAX && c % 8 != 0 ==> r == Err::<u64, StreamError>(
                StreamError::Desync,
            )
            &&& is_supported(t) && s > 0 && c <= u64::MAX && c % 8 == 0 && k * (c / 8) > u64::MAX ==> r == Err::<
                u64,
                StreamError,
            >(StreamError::Config(ConfigError::TooLarge))
            &&& is_supported(t) && s > 0 && c <= u64::MAX && c % 8 == 0 && k * (c / 8) <= u64::MAX ==> r
                == Ok::<u64, StreamError>((k * (c / 8)) as u64)
        }),
{
    if !(info.video_type == VideoType::BlackNWhite || info.video_type == VideoType::Color) {
        return Err(StreamError::Raster(RasterError::UnsupportedMode));
    }
    let ps = info.pixel_size as u32;
    if ps == 0 {
        return Err(StreamError::Raster(RasterError::IncompatibleDimensions));
    }
    proof {
        lemma_u32_product(width / ps, height / ps);
    }
    let blocks: u64 = (width / ps) as u64 * (height / ps) as u64;
    let per_block: u64 = if info.video_type == VideoType::BlackNWhite { 1 } else { 3 };
    let cap = match blocks.checked_mul(per_block) {
        Some(c) => c,
        None => return Err(StreamError::Config(ConfigError::TooLarge)),
    };
    if cap % 8 != 0 {
        return Err(StreamError::Desync);
    }
    match k.checked_mul(cap / 8) {
        Some(offset) => Ok(offset),
        None => Err(StreamError::Config(ConfigError::TooLarge)),
    }
}

/// Whether the extracted file is intact: its checksum equals the one
/// that the header holds.
pub fn verdict(expected: &String, actual: &String) -> (r: Verdict)
    ensures
        r == Verdict::Intact <==> expected@ == actual@,
        r == Verdict::Intact || r == Verdict::Corrupted,
{
    if *expected == *actual {
        Verdict::Intact
    } else {
        Verdict::Corrupted
    }
}

} // verus!
