//! Block rasters: a frame of `width x height` pixels is cut into square
//! blocks of `pixel_size` pixels a side, enumerated row-major (top row first,
//! left to right), and each block shows one or more bits as a solid colour.
//!
//! An image is a sequence of `3 * width * height` bytes, pixels row-major,
//! each pixel as blue, green, red.

use vstd::prelude::*;
use vstd::arithmetic::div_mod::{lemma_fundamental_div_mod, lemma_fundamental_div_mod_converse};
use crate::session::{VideoType, bits_per_block, is_supported};
use crate::session::lemma_u32_product;

verus! {

/// Errors of the block raster.
#[derive(Debug, Clone, Copy, PartialEq, Eq, Structural)]
pub enum RasterError {
    /// The mode's raster is reserved and not implemented.
    UnsupportedMode,
    /// The block size does not tile the frame, or the page size is not the
    /// frame's capacity.
    IncompatibleDimensions,
    /// More bits than the frame can carry.
    TooManyBits,
}

/// Blocks in a frame.
pub open spec fn block_count(s: int, w: int, h: int) -> int {
    (w / s) * (h / s)
}

/// Bits that a frame carries in a mode.
pub open spec fn capacity(t: VideoType, s: int, w: int, h: int) -> int {
    block_count(s, w, h) * bits_per_block(t)
}

/// Whether blocks of edge `s` tile a `w x h` frame exactly.
pub open spec fn tiles(s: int, w: int, h: int) -> bool {
    s > 0 && w % s == 0 && h % s == 0
}

/// `bits` followed by `false` up to length `n`.
pub open spec fn pad_bits(bits: Seq<bool>, n: int) -> Seq<bool> {
    Seq::new(n as nat, |i: int| if i < bits.len() { bits[i] } else { false })
}

/// Channel intensity that shows one bit.
pub open spec fn level(b: bool) -> u8 {
    if b {
        255
    } else {
        0
    }
}

/// Row-major index of the block that holds pixel `(x, y)`.
pub open spec fn block_index(s: int, w: int, x: int, y: int) -> int {
    (y / s) * (w / s) + x / s
}

/// Blue, green and red of block `k`: one bit shown on all three channels
/// in black-and-white mode; three bits as red, green and blue in colour mode.
pub open spec fn block_bgr(t: VideoType, bits: Seq<bool>, k: int) -> (u8, u8, u8) {
    if t == VideoType::BlackNWhite {
        (level(bits[k]), level(bits[k]), level(bits[k]))
    } else {
        (level(bits[3 * k + 2]), level(bits[3 * k + 1]), level(bits[3 * k]))
    }
}

/// Byte `i` of the image that shows `bits`.
pub open spec fn raster_byte(t: VideoType, bits: Seq<bool>, s: int, w: int, i: int) -> u8 {
    let p = i / 3;
    let c = block_bgr(t, bits, block_index(s, w, p % w, p / w));
    if i % 3 == 0 {
        c.0
    } else if i % 3 == 1 {
        c.1
    } else {
        c.2
    }
}

/// The image that shows `bits` (already the frame's capacity long).
pub open spec fn raster(t: VideoType, bits: Seq<bool>, s: int, w: int, h: int) -> Seq<u8> {
    Seq::new((3 * w * h) as nat, |i: int| raster_byte(t, bits, s, w, i))
}

/// Byte index of the blue channel of block `k`'s centre pixel.
pub open spec fn center_index(s: int, w: int, k: int) -> int {
    let bw = w / s;
    3 * (((k / bw) * s + s / 2) * w + (k % bw) * s + s / 2)
}

/// The bit that a black-and-white pixel shows: its mean channel at least 128.
pub open spec fn mono_bit(px: Seq<u8>, i: int) -> bool {
    (px[i] as int + px[i + 1] as int + px[i + 2] as int) / 3 >= 128
}

/// The bits that an image shows, read at each block's centre pixel.
pub open spec fn sampled_bits(t: VideoType, px: Seq<u8>, s: int, w: int, h: int) -> Seq<bool> {
    Seq::new(
        capacity(t, s, w, h) as nat,
        |i: int|
            if t == VideoType::BlackNWhite {
                mono_bit(px, center_index(s, w, i))
            } else {
                px[center_index(s, w, i / 3) + 2 - i % 3] >= 128
            },
    )
}

proof fn lemma_pixel_index(w: int, h: int, x: int, y: int, c: int)
    requires
        0 <= x < w,
        0 <= y < h,
        0 <= c < 3,
    ensures
        (3 * (y * w + x) + c) / 3 == y * w + x,
        (3 * (y * w + x) + c) % 3 == c,
        (y * w + x) % w == x,
        (y * w + x) / w == y,
        0 <= 3 * (y * w + x) + c < 3 * w * h,
{
    lemma_fundamental_div_mod_converse(3 * (y * w + x) + c, 3, y * w + x, c);
    lemma_fundamental_div_mod_converse(y * w + x, w, y, x);
    assert(0 <= y * w) by (nonlinear_arith)
        requires
            0 <= y,
            0 <= w,
    ;
    assert(y * w + x < w * h) by (nonlinear_arith)
        requires
            0 <= x < w,
            0 <= y < h,
    ;
    assert(3 * w * h == 3 * (w * h)) by (nonlinear_arith);
}

proof fn lemma_block_in_range(s: int, w: int, h: int, x: int, y: int)
    requires
        tiles(s, w, h),
        0 <= x < w,
        0 <= y < h,
    ensures
        0 <= x / s < w / s,
        0 <= y / s < h / s,
        0 <= block_index(s, w, x, y) < block_count(s, w, h),
{
    lemma_fundamental_div_mod(w, s);
    lemma_fundamental_div_mod(h, s);
    assert(x / s < w / s) by (nonlinear_arith)
        requires
            0 <= x < w,
            s > 0,
            w == s * (w / s),
    ;
    assert(y / s < h / s) by (nonlinear_arith)
        requires
            0 <= y < h,
            s > 0,
            h == s * (h / s),
    ;
    let bx = x / s;
    let by = y / s;
    let bw = w / s;
    let bh = h / s;
    assert(0 <= by * bw + bx < bw * bh) by (nonlinear_arith)
        requires
            0 <= bx < bw,
            0 <= by < bh,
    ;
}

fn paint(t: VideoType, data: &[bool], pixel_size: u32, width: u32, height: u32) -> (r: Vec<u8>)
    requires
        is_supported(t),
        tiles(pixel_size as int, width as int, height as int),
        data@.len() == capacity(t, pixel_size as int, width as int, height as int),
        3 * width * height <= usize::MAX,
    ensures
        r@ == raster(t, data@, pixel_size as int, width as int, height as int),
{
    let ghost s = pixel_size as int;
    let ghost w = width as int;
    let ghost h = height as int;
    let bw: u64 = (width / pixel_size) as u64;
    let len = data.len();
    let mut out: Vec<u8> = Vec::new();
    let mut y: u32 = 0;
    while y < height
        invariant
            is_supported(t),
            tiles(s, w, h),
            s == pixel_size,
            w == width,
            h == height,
            bw == w / s,
            data@.len() == capacity(t, s, w, h),
            len == data@.len(),
            3 * width * height <= usize::MAX,
            y <= height,
            out@.len() == 3 * (y * w),
            forall|i: int| 0 <= i < out@.len() ==> out@[i] == raster_byte(t, data@, s, w, i),
        decreases height - y,
    {
        let mut x: u32 = 0;
        while x < width
            invariant
                is_supported(t),
                tiles(s, w, h),
                s == pixel_size,
                w == width,
                h == height,
                bw == w / s,
                data@.len() == capacity(t, s, w, h),
                len == data@.len(),
                3 * width * height <= usize::MAX,
                y < height,
                x <= width,
                out@.len() == 3 * (y * w + x),
                forall|i: int| 0 <= i < out@.len() ==> out@[i] == raster_byte(t, data@, s, w, i),
            decreases width - x,
        {
            let ghost p = y * w + x;
            proof {
                lemma_pixel_index(w, h, x as int, y as int, 0);
                lemma_pixel_index(w, h, x as int, y as int, 1);
                lemma_pixel_index(w, h, x as int, y as int, 2);
                lemma_block_in_range(s, w, h, x as int, y as int);
                lemma_u32_product(height / pixel_size, width / pixel_size);
                assert((y / pixel_size) as int * bw <= (h / s - 1) * bw) by (nonlinear_arith)
                    requires
                        (y / pixel_size) as int <= h / s - 1,
                        bw >= 0,
                ;
                assert((h / s) * bw == block_count(s, w, h)) by (nonlinear_arith)
                    requires
                        bw == w / s,
                ;
            }
            let ghost kk = block_index(s, w, x as int, y as int);
            assert(kk < data@.len()) by (nonlinear_arith)
                requires
                    0 <= kk < block_count(s, w, h),
                    data@.len() == block_count(s, w, h) * bits_per_block(t),
                    bits_per_block(t) >= 1,
            ;
            let row: u64 = (y / pixel_size) as u64;
            let col: u64 = (x / pixel_size) as u64;
            assert(row == y as int / s && col == x as int / s);
            assert(row * bw + col == kk);
            let k: usize = (row * bw + col) as usize;
            let (b, g, r) = if t == VideoType::BlackNWhite {
                let v: u8 = if data[k] { 255 } else { 0 };
                (v, v, v)
            } else {
                assert(3 * kk + 2 < capacity(t, s, w, h)) by (nonlinear_arith)
                    requires
                        0 <= kk < block_count(s, w, h),
                        capacity(t, s, w, h) == block_count(s, w, h) * 3,
                ;
                let r: u8 = if data[3 * k] { 255 } else { 0 };
                let g: u8 = if data[3 * k + 1] { 255 } else { 0 };
                let b: u8 = if data[3 * k + 2] { 255 } else { 0 };
                (b, g, r)
            };
            assert((b, g, r) == block_bgr(t, data@, kk));
            out.push(b);
            out.push(g);
            out.push(r);
            x = x + 1;
            proof {
                assert(3 * (y * w + x) == 3 * p + 3);
            }
        }
        y = y + 1;
        proof {
            assert(3 * (y * w) == 3 * ((y - 1) * w + w)) by (nonlinear_arith);
        }
    }
    proof {
        assert(out@.len() == 3 * w * h) by (nonlinear_arith)
            requires
                out@.len() == 3 * (h * w),
        ;
    }
    assert(out@ =~= raster(t, data@, s, w, h));
    out
}

/// The black-and-white raster: one bit per block, white for `true` and
/// black for `false`.
pub fn encode_black_and_white(data: &[bool], pixel_size: u32, width: u32, height: u32) -> (r: Vec<u8>)
    requires
        tiles(pixel_size as int, width as int, height as int),
        data@.len() == capacity(VideoType::BlackNWhite, pixel_size as int, width as int, height as int),
        3 * width * height <= usize::MAX,
    ensures
        r@ == raster(VideoType::BlackNWhite, data@, pixel_size as int, width as int, height as int),
{
    paint(VideoType::BlackNWhite, data, pixel_size, width, height)
}

/// The colour raster: three bits per block, shown on the red, green and
/// blue channels at full or zero intensity.
pub fn encode_color(data: &[bool], pixel_size: u32, width: u32, height: u32) -> (r: Vec<u8>)
    requires
        tiles(pixel_size as int, width as int, height as int),
        data@.len() == capacity(VideoType::Color, pixel_size as int, width as int, height as int),
        3 * width * height <= usize::MAX,
    ensures
        r@ == raster(VideoType::Color, data@, pixel_size as int, width as int, height as int),
{
    paint(VideoType::Color, data, pixel_size, width, height)
}

proof fn lemma_center(s: int, w: int, h: int, bx: int, by: int)
    requires
        s > 0,
        0 <= bx < w / s,
        0 <= by < h / s,
    ensures
        0 <= bx * s + s / 2 < w,
        0 <= by * s + s / 2 < h,
        (bx * s + s / 2) / s == bx,
        (by * s + s / 2) / s == by,
{
    lemma_fundamental_div_mod(w, s);
    lemma_fundamental_div_mod(h, s);
    lemma_fundamental_div_mod_converse(bx * s + s / 2, s, bx, s / 2);
    lemma_fundamental_div_mod_converse(by * s + s / 2, s, by, s / 2);
    assert(0 <= bx * s + s / 2 < w) by (nonlinear_arith)
        requires
            s > 0,
            0 <= bx < w / s,
            w == s * (w / s) + w % s,
            w % s >= 0,
            0 <= s / 2 < s,
    ;
    assert(0 <= by * s + s / 2 < h) by (nonlinear_arith)
        requires
            s > 0,
            0 <= by < h / s,
            h == s * (h / s) + h % s,
            h % s >= 0,
            0 <= s / 2 < s,
    ;
}

/// Reads the bits that an image shows: each block's centre pixel, in
/// raster order. Black-and-white: one bit, set when the mean of the three
/// channels is at least 128. Colour: three bits, red, green and blue, each
/// set when its channel is at least 128.
pub fn decode_frame(pixels: &[u8], video_type: VideoType, pixel_size: u32, width: u32, height: u32) -> (r: Result<Vec<bool>, RasterError>)
    requires
        pixels@.len() == 3 * width * height,
    ensures
        !is_supported(video_type) ==> r == Err::<Vec<bool>, RasterError>(RasterError::UnsupportedMode),
        is_supported(video_type) && pixel_size == 0 ==> r == Err::<Vec<bool>, RasterError>(
            RasterError::IncompatibleDimensions,
        ),
        is_supported(video_type) && pixel_size > 0 ==> r is Ok && r->Ok_0@ == sampled_bits(
            video_type,
            pixels@,
            pixel_size as int,
            width as int,
            height as int,
        ),
{
    if !(video_type == VideoType::BlackNWhite || video_type == VideoType::Color) {
        return Err(RasterError::UnsupportedMode);
    }
    if pixel_size == 0 {
        return Err(RasterError::IncompatibleDimensions);
    }
    let ghost t = video_type;
    let ghost s = pixel_size as int;
    let ghost w = width as int;
    let ghost h = height as int;
    let ghost bpb = bits_per_block(t) as int;
    let bw: u32 = width / pixel_size;
    let bh: u32 = height / pixel_size;
    let half: u32 = pixel_size / 2;
    let len = pixels.len();
    let mut out: Vec<bool> = Vec::new();
    let mut by: u32 = 0;
    while by < bh
        invariant
            is_supported(t),
            t == video_type,
            s == pixel_size,
            w == width,
            h == height,
            s > 0,
            bw == w / s,
            bh == h / s,
            half == s / 2,
            bpb == bits_per_block(t),
            len == pixels@.len(),
            pixels@.len() == 3 * w * h,
            by <= bh,
            out@.len() == (by * bw) * bpb,
            forall|i: int| 0 <= i < out@.len() ==> out@[i] == sampled_bits(t, pixels@, s, w, h)[i],
        decreases bh - by,
    {
        let mut bx: u32 = 0;
        while bx < bw
            invariant
                is_supported(t),
                t == video_type,
                s == pixel_size,
                w == width,
                h == height,
                s > 0,
                bw == w / s,
                bh == h / s,
                half == s / 2,
                bpb == bits_per_block(t),
                len == pixels@.len(),
                pixels@.len() == 3 * w * h,
                by < bh,
                bx <= bw,
                out@.len() == (by * bw + bx) * bpb,
                forall|i: int| 0 <= i < out@.len() ==> out@[i] == sampled_bits(t, pixels@, s, w, h)[i],
            decreases bw - bx,
        {
            let ghost k = by * bw + bx;
            proof {
                lemma_center(s, w, h, bx as int, by as int);
                lemma_pixel_index(bw as int, bh as int, bx as int, by as int, 0);
                lemma_pixel_index(w, h, (bx * s + s / 2) as int, (by * s + s / 2) as int, 2);
                lemma_u32_product(by, pixel_size);
                lemma_u32_product(bx, pixel_size);
                assert(k < bw * bh) by (nonlinear_arith)
                    requires
                        k == by * bw + bx,
                        0 <= bx < bw,
                        0 <= by < bh,
                ;
                assert(block_count(s, w, h) == bw * bh);
                assert(capacity(t, s, w, h) == bw * bh * bpb);
            }
            let cy: u64 = by as u64 * pixel_size as u64 + half as u64;
            let cx: u64 = bx as u64 * pixel_size as u64 + half as u64;
            proof {
                lemma_u32_product(cy as u32, width);
            }
            let ci: usize = (3 * (cy * width as u64 + cx)) as usize;
            assert(ci == center_index(s, w, k));
            if video_type == VideoType::BlackNWhite {
                proof {
                    assert(k * bpb == k) by (nonlinear_arith)
                        requires
                            bpb == 1,
                    ;
                }
                let sum: u32 = pixels[ci] as u32 + pixels[ci + 1] as u32 + pixels[ci + 2] as u32;
                out.push(sum / 3 >= 128);
                proof {
                    assert(k < capacity(t, s, w, h)) by (nonlinear_arith)
                        requires
                            k < bw * bh,
                            capacity(t, s, w, h) == bw * bh * 1,
                    ;
                    assert(out@.len() == k + 1);
                    assert(out@[k] == sampled_bits(t, pixels@, s, w, h)[k]);
                }
            } else {
                proof {
                    assert(k * bpb == 3 * k) by (nonlinear_arith)
                        requires
                            bpb == 3,
                    ;
                }
                out.push(pixels[ci + 2] >= 128);
                out.push(pixels[ci + 1] >= 128);
                out.push(pixels[ci] >= 128);
                proof {
                    assert(3 * k + 2 < capacity(t, s, w, h)) by (nonlinear_arith)
                        requires
                            k < bw * bh,
                            capacity(t, s, w, h) == bw * bh * 3,
                    ;
                    assert(out@.len() == 3 * k + 3);
                    lemma_fundamental_div_mod_converse(3 * k, 3, k, 0);
                    lemma_fundamental_div_mod_converse(3 * k + 1, 3, k, 1);
                    lemma_fundamental_div_mod_converse(3 * k + 2, 3, k, 2);
                    assert(out@[3 * k] == sampled_bits(t, pixels@, s, w, h)[3 * k]);
                    assert(out@[3 * k + 1] == sampled_bits(t, pixels@, s, w, h)[3 * k + 1]);
                    assert(out@[3 * k + 2] == sampled_bits(t, pixels@, s, w, h)[3 * k + 2]);
                }
            }
            bx = bx + 1;
            proof {
                assert((by * bw + bx) * bpb == k * bpb + bpb) by (nonlinear_arith)
                    requires
                        k == by * bw + bx - 1,
                ;
            }
        }
        by = by + 1;
        proof {
            assert((by * bw) * bpb == ((by - 1) * bw + bw) * bpb) by (nonlinear_arith);
        }
    }
    proof {
        assert(capacity(t, s, w, h) == (bh * bw) * bpb) by (nonlinear_arith)
            requires
                capacity(t, s, w, h) == (w / s) * (h / s) * bpb,
                bw == w / s,
                bh == h / s,
        ;
    }
    assert(out@ =~= sampled_bits(t, pixels@, s, w, h));
    Ok(out)
}

/// Reading back the raster of a full page of bits, at each block's centre,
/// gives the page.
pub proof fn lemma_raster_round_trip(t: VideoType, bits: Seq<bool>, s: int, w: int, h: int)
    requires
        is_supported(t),
        tiles(s, w, h),
        w >= 0,
        h >= 0,
        bits.len() == capacity(t, s, w, h),
    ensures
        sampled_bits(t, raster(t, bits, s, w, h), s, w, h) == bits,
{
    let px = raster(t, bits, s, w, h);
    let bw = w / s;
    let bh = h / s;
    let bpb = bits_per_block(t) as int;
    assert forall|i: int| 0 <= i < bits.len() implies #[trigger] sampled_bits(t, px, s, w, h)[i] == bits[i] by {
        let k = if t == VideoType::BlackNWhite { i } else { i / 3 };
        assert(0 <= k < bw * bh) by {
            if t == VideoType::BlackNWhite {
                assert(bits.len() == bw * bh * 1);
            } else {
                assert(bits.len() == bw * bh * 3);
                lemma_fundamental_div_mod(i, 3);
                assert(i / 3 < bw * bh) by (nonlinear_arith)
                    requires
                        0 <= i < bw * bh * 3,
                        i == 3 * (i / 3) + i % 3,
                        0 <= i % 3 < 3,
                ;
            }
        }
        assert(bw > 0) by (nonlinear_arith)
            requires
                0 <= k < bw * bh,
                bw >= 0,
                bh >= 0,
        ;
        lemma_fundamental_div_mod(k, bw);
        let bx = k % bw;
        let by = k / bw;
        assert(0 <= by < bh) by (nonlinear_arith)
            requires
                0 <= k < bw * bh,
                k == bw * by + bx,
                0 <= bx < bw,
        ;
        lemma_center(s, w, h, bx, by);
        let cx = bx * s + s / 2;
        let cy = by * s + s / 2;
        lemma_pixel_index(w, h, cx, cy, 0);
        lemma_pixel_index(w, h, cx, cy, 1);
        lemma_pixel_index(w, h, cx, cy, 2);
        assert(block_index(s, w, cx, cy) == k);
        assert(center_index(s, w, k) == 3 * (cy * w + cx));
        let c = block_bgr(t, bits, k);
        assert(px[3 * (cy * w + cx)] == c.0);
        assert(px[3 * (cy * w + cx) + 1] == c.1);
        assert(px[3 * (cy * w + cx) + 2] == c.2);
        if t != VideoType::BlackNWhite {
            lemma_fundamental_div_mod(i, 3);
        }
    }
    assert(sampled_bits(t, px, s, w, h) =~= bits);
}

/// One frame: the bits it carries and the image that shows them.
#[derive(Debug)]
pub struct Frame {
    /// Pixels row-major, three bytes each: blue, green, red.
    pub image: Vec<u8>,
    pub data: Vec<bool>,
    pub pixel_size: u32,
    pub width: u32,
    pub height: u32,
}

impl Frame {
    /// A frame of the given geometry that will show `data`; its image starts
    /// black.
    pub fn new(data: Vec<bool>, pixel_size: u8, width: u32, height: u32) -> (r: Frame)
        requires
            3 * width * height <= usize::MAX,
        ensures
            r.data == data,
            r.pixel_size == pixel_size,
            r.width == width,
            r.height == height,
            r.image@ == Seq::new((3 * width * height) as nat, |i: int| 0u8),
    {
        proof {
            assert(width as int * height as int <= 3 * width * height) by (nonlinear_arith);
            assert(3 * (width as int * height as int) == 3 * width * height) by (nonlinear_arith);
        }
        let n: usize = 3 * (width as usize * height as usize);
        let image = vec![0u8; n];
        assert forall|i: int| 0 <= i < n implies image@[i] == 0u8 by {
            assert(cloned(0u8, image@[i]));
        }
        assert(image@ =~= Seq::new((3 * width * height) as nat, |i: int| 0u8));
        Frame { image, data, pixel_size: pixel_size as u32, width, height }
    }

    /// Pads the frame's bits with `false` up to `bits_per_page`, which must
    /// be the frame's capacity in `video_type`, and paints the image that
    /// shows them.
    pub fn compute_colors(&mut self, video_type: VideoType, bits_per_page: u32) -> (r: Result<(), RasterError>)
        requires
            3 * old(self).width * old(self).height <= usize::MAX,
        ensures
            ({
                let s = old(self).pixel_size as int;
                let w = old(self).width as int;
                let h = old(self).height as int;
                &&& !is_supported(video_type) ==> r == Err::<(), RasterError>(RasterError::UnsupportedMode)
                &&& is_supported(video_type) && (!tiles(s, w, h) || bits_per_page != capacity(video_type, s, w, h))
                    ==> r == Err::<(), RasterError>(RasterError::IncompatibleDimensions)
                &&& is_supported(video_type) && tiles(s, w, h) && bits_per_page == capacity(video_type, s, w, h)
                    && old(self).data@.len() > bits_per_page ==> r == Err::<(), RasterError>(RasterError::TooManyBits)
                &&& r is Ok <== is_supported(video_type) && tiles(s, w, h) && bits_per_page == capacity(video_type, s, w, h)
                    && old(self).data@.len() <= bits_per_page
                &&& r is Ok ==> {
                    &&& final(self).data@ == pad_bits(old(self).data@, bits_per_page as int)
                    &&& final(self).image@ == raster(video_type, final(self).data@, s, w, h)
                }
                &&& r is Err ==> *final(self) == *old(self)
                &&& final(self).pixel_size == old(self).pixel_size
                &&& final(self).width == old(self).width
                &&& final(self).height == old(self).height
            }),
    {
        if !(video_type == VideoType::BlackNWhite || video_type == VideoType::Color) {
            return Err(RasterError::UnsupportedMode);
        }
        let pixel_size = self.pixel_size;
        let width = self.width;
        let height = self.height;
        if pixel_size == 0 || width % pixel_size != 0 || height % pixel_size != 0 {
            return Err(RasterError::IncompatibleDimensions);
        }
        let ghost s = pixel_size as int;
        let ghost w = width as int;
        let ghost h = height as int;
        proof {
            assert((width / pixel_size) as int * (height / pixel_size) as int * 3 <= 3 * w * h) by (nonlinear_arith)
                requires
                    0 <= (width / pixel_size) as int <= w,
                    0 <= (height / pixel_size) as int <= h,
            ;
        }
        let blocks: usize = (width / pixel_size) as usize * (height / pixel_size) as usize;
        let per_block: usize = if video_type == VideoType::BlackNWhite { 1 } else { 3 };
        let cap: usize = blocks * per_block;
        if bits_per_page as usize != cap {
            return Err(RasterError::IncompatibleDimensions);
        }
        if self.data.len() > bits_per_page as usize {
            return Err(RasterError::TooManyBits);
        }
        let ghost start = self.data@;
        while self.data.len() < bits_per_page as usize
            invariant
                start.len() <= self.data@.len() <= bits_per_page,
                self.data@ == pad_bits(start, self.data@.len() as int),
                self.pixel_size == pixel_size,
                self.width == width,
                self.height == height,
            decreases bits_per_page - self.data@.len(),
        {
            self.data.push(false);
            assert(self.data@ =~= pad_bits(start, self.data@.len() as int));
        }
        self.image = if video_type == VideoType::BlackNWhite {
            encode_black_and_white(&self.data, pixel_size, width, height)
        } else {
            encode_color(&self.data, pixel_size, width, height)
        };
        Ok(())
    }
}

} // verus!
