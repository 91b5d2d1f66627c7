//! Session parameters: the video mode, the frame geometry and the sizes
//! derived from them, and the adaptive choice of the header's block size.

use vstd::prelude::*;
use vstd::arithmetic::div_mod::{lemma_fundamental_div_mod, lemma_mod_multiples_basic};
use vstd::string::StrSliceExecFns;
use vstd::string::StringExecFnsIsAscii;
use vstd::arithmetic::mul::lemma_mul_strictly_positive;
use vstd::utf8::is_ascii_chars;

verus! {

/// Density mode of a video: how many bits one block carries and how.
#[derive(Debug, Clone, Copy, PartialEq, Eq, Structural)]
pub enum VideoType {
    BlackNWhite,
    GrayScale,
    Color,
    Color8,
    Color16,
}

/// The 4-bit code that the header stores for a mode.
pub open spec fn type_code(t: VideoType) -> nat {
    match t {
        VideoType::BlackNWhite => 0,
        VideoType::GrayScale => 1,
        VideoType::Color => 2,
        VideoType::Color8 => 3,
        VideoType::Color16 => 4,
    }
}

/// The mode that a header code stands for, if any.
pub open spec fn type_of_code(code: nat) -> Option<VideoType> {
    if code == 0 {
        Some(VideoType::BlackNWhite)
    } else if code == 1 {
        Some(VideoType::GrayScale)
    } else if code == 2 {
        Some(VideoType::Color)
    } else if code == 3 {
        Some(VideoType::Color8)
    } else if code == 4 {
        Some(VideoType::Color16)
    } else {
        None
    }
}

/// Bytes per block of a mode, as numerator and denominator.
pub open spec fn byte_ratio(t: VideoType) -> (u32, u32) {
    match t {
        VideoType::BlackNWhite => (1, 8),
        VideoType::GrayScale => (3, 8),
        VideoType::Color => (3, 8),
        VideoType::Color8 => (1, 2),
        VideoType::Color16 => (3, 2),
    }
}

/// Bits carried by one block of a mode.
pub open spec fn bits_per_block(t: VideoType) -> nat {
    match t {
        VideoType::BlackNWhite => 1,
        VideoType::GrayScale => 3,
        VideoType::Color => 3,
        VideoType::Color8 => 4,
        VideoType::Color16 => 12,
    }
}

/// Whether the block raster of a mode is implemented.
pub open spec fn is_supported(t: VideoType) -> bool {
    t == VideoType::BlackNWhite || t == VideoType::Color
}

/// Payload bytes that one frame holds: `pixels * num / size^2 / den`, when
/// both divisions are exact.
pub open spec fn frame_bytes(total_pixels: nat, pixel_size: nat, num: nat, den: nat) -> Option<nat> {
    if pixel_size == 0 || den == 0 {
        None
    } else if (total_pixels * num) % (pixel_size * pixel_size) != 0 {
        None
    } else if ((total_pixels * num) / (pixel_size * pixel_size)) % den != 0 {
        None
    } else {
        Some((total_pixels * num) / (pixel_size * pixel_size) / den)
    }
}

/// Frames needed for `file_size` bytes at `per_frame` bytes each, rounding up.
pub open spec fn frames_needed(file_size: nat, per_frame: nat) -> nat {
    if file_size % per_frame == 0 {
        file_size / per_frame
    } else {
        file_size / per_frame + 1
    }
}

/// Bytes that pad the last frame: the frames' room less the file size.
pub open spec fn padding_bytes(file_size: nat, per_frame: nat) -> int {
    per_frame * frames_needed(file_size, per_frame) - file_size
}

/// Greatest common divisor, by Euclid's rule.
pub open spec fn spec_gcd(a: nat, b: nat) -> nat
    decreases b,
{
    if b == 0 {
        a
    } else {
        spec_gcd(b, a % b)
    }
}

/// A positive `d` divides `a` and `b` exactly when it divides `a % b`
/// and `b`.
proof fn lemma_divides_remainder(a: nat, b: nat, d: nat)
    requires
        b > 0,
        d > 0,
        b % d == 0,
    ensures
        a % d == 0 <==> (a % b) % d == 0,
{
    lemma_fundamental_div_mod(a as int, b as int);
    lemma_fundamental_div_mod(b as int, d as int);
    let m = (a / b) as int;
    let q = (b / d) as int;
    if a % d == 0 {
        lemma_fundamental_div_mod(a as int, d as int);
        let p = (a / d) as int;
        assert((a % b) as int == (p - q * m) * d) by (nonlinear_arith)
            requires
                a == b * m + a % b,
                b == d * q,
                a == d * p,
        ;
        lemma_mod_multiples_basic(p - q * m, d as int);
    }
    if (a % b) % d == 0 {
        lemma_fundamental_div_mod((a % b) as int, d as int);
        let r = ((a % b) / d) as int;
        assert(a as int == (q * m + r) * d) by (nonlinear_arith)
            requires
                a == b * m + a % b,
                b == d * q,
                a % b == d * r,
        ;
        lemma_mod_multiples_basic(q * m + r, d as int);
    }
}

/// The common divisors of `a` and `b` are exactly the divisors of their
/// greatest common divisor.
pub proof fn lemma_gcd_divisors(a: nat, b: nat)
    ensures
        forall|d: nat| d > 0 ==> ((a % d == 0 && b % d == 0) <==> #[trigger] (spec_gcd(a, b) % d) == 0),
    decreases b,
{
    if b > 0 {
        lemma_gcd_divisors(b, a % b);
        assert(spec_gcd(a, b) == spec_gcd(b, a % b));
        assert forall|d: nat| d > 0 implies ((a % d == 0 && b % d == 0) <==> #[trigger] (spec_gcd(a, b) % d) == 0) by {
            assert((b % d == 0 && (a % b) % d == 0) <==> spec_gcd(b, a % b) % d == 0);
            if b % d == 0 {
                lemma_divides_remainder(a, b, d);
            }
        }
    }
}

/// A positive divisor of a positive number is at most that number.
proof fn lemma_divisor_le(g: nat, d: nat)
    requires
        g > 0,
        d > 0,
        g % d == 0,
    ensures
        d <= g,
{
    lemma_fundamental_div_mod(g as int, d as int);
    assert(d <= g) by (nonlinear_arith)
        requires
            g == d * (g / d),
            g > 0,
            d > 0,
    ;
}

/// Block edge `s` tiles a `width` x `height` frame and gives more than
/// `required` blocks.
pub open spec fn block_fits(required: nat, width: nat, height: nat, s: nat) -> bool {
    s > 0 && width % s == 0 && height % s == 0 && (width * height) / (s * s) > required
}

/// The product of two `u32` values fits a `u64`.
pub proof fn lemma_u32_product(a: u32, b: u32)
    ensures
        a as nat * b as nat <= u64::MAX,
{
    assert(a as nat * b as nat <= 0xffff_ffffnat * 0xffff_ffffnat) by (nonlinear_arith)
        requires
            a <= 0xffff_ffffnat,
            b <= 0xffff_ffffnat,
    ;
}

/// Errors in a session's configuration.
#[derive(Debug, Clone, Copy, PartialEq, Eq, Structural)]
pub enum ConfigError {
    /// Width, height, block size and mode do not tile a whole number of
    /// blocks and bytes per frame.
    IncompatibleDimensions,
    /// A size does not fit where it must be held: a frame's bytes in
    /// memory, a block edge in a byte, or a count in its header field.
    TooLarge,
    /// The source path has no final file name component.
    NoFileName,
    /// The file name is not at most 32 ASCII characters.
    BadFileName,
    /// The checksum is not 64 ASCII characters.
    BadChecksum,
}

/// Payload bytes per frame, or `IncompatibleDimensions` where the block size
/// or the mode does not divide the frame exactly.
pub fn get_bytes_per_frame(total_pixels: u64, pixel_size: u32, byte_per_pixel: (u32, u32)) -> (r: Result<u64, ConfigError>)
    requires
        total_pixels * byte_per_pixel.0 <= u64::MAX,
    ensures
        match frame_bytes(total_pixels as nat, pixel_size as nat, byte_per_pixel.0 as nat, byte_per_pixel.1 as nat) {
            Some(v) => r is Ok && r->Ok_0 == v,
            None => r == Err::<u64, ConfigError>(ConfigError::IncompatibleDimensions),
        },
{
    let numerator = byte_per_pixel.0 as u64;
    let denominator = byte_per_pixel.1 as u64;
    if pixel_size == 0 || denominator == 0 {
        return Err(ConfigError::IncompatibleDimensions);
    }
    proof {
        lemma_u32_product(pixel_size, pixel_size);
        lemma_mul_strictly_positive(pixel_size as int, pixel_size as int);
    }
    let square = pixel_size as u64 * pixel_size as u64;
    let scaled = total_pixels * numerator;
    if scaled % square != 0 {
        return Err(ConfigError::IncompatibleDimensions);
    }
    let pixels_per_frame = scaled / square;
    if pixels_per_frame % denominator != 0 {
        return Err(ConfigError::IncompatibleDimensions);
    }
    Ok(pixels_per_frame / denominator)
}

/// Greatest common divisor of `a` and `b`: its divisors are exactly the
/// common divisors of `a` and `b`.
pub fn gcd(a: u32, b: u32) -> (r: u32)
    ensures
        r == spec_gcd(a as nat, b as nat),
        forall|d: nat| d > 0 ==> ((a as nat % d == 0 && b as nat % d == 0) <==> #[trigger] (r as nat % d) == 0),
{
    proof {
        lemma_gcd_divisors(a as nat, b as nat);
    }
    let mut x = a;
    let mut y = b;
    while y != 0
        invariant
            spec_gcd(x as nat, y as nat) == spec_gcd(a as nat, b as nat),
        decreases y,
    {
        let remainder = x % y;
        x = y;
        y = remainder;
    }
    x
}

/// The largest block edge, at most `gcd(width, height)`, that tiles the
/// frame and gives more than `bytes_on_frame` blocks; `None` where no edge
/// does.
pub fn max_pixel_size(bytes_on_frame: u32, width: u32, height: u32) -> (r: Option<u32>)
    ensures
        match r {
            Some(s) => {
                &&& s <= spec_gcd(width as nat, height as nat)
                &&& block_fits(bytes_on_frame as nat, width as nat, height as nat, s as nat)
                &&& forall|t: nat| s < t ==> !#[trigger] block_fits(bytes_on_frame as nat, width as nat, height as nat, t)
            },
            None => forall|t: nat| !#[trigger] block_fits(bytes_on_frame as nat, width as nat, height as nat, t),
        },
{
    let g = gcd(width, height);
    let mut pixel_size = g;
    proof {
        assert forall|t: nat| g < t implies !#[trigger] block_fits(bytes_on_frame as nat, width as nat, height as nat, t) by {
            if block_fits(bytes_on_frame as nat, width as nat, height as nat, t) {
                lemma_fit_below_gcd(bytes_on_frame as nat, width as nat, height as nat, t);
            }
        }
    }
    proof {
        lemma_u32_product(width, height);
    }
    let area = width as u64 * height as u64;
    while pixel_size > 0
        invariant
            pixel_size <= g,
            g == spec_gcd(width as nat, height as nat),
            area == width as nat * height as nat,
            forall|t: nat| pixel_size < t ==> !#[trigger] block_fits(bytes_on_frame as nat, width as nat, height as nat, t),
        decreases pixel_size,
    {
        proof {
            lemma_u32_product(pixel_size, pixel_size);
            lemma_mul_strictly_positive(pixel_size as int, pixel_size as int);
        }
        let square = pixel_size as u64 * pixel_size as u64;
        if width % pixel_size == 0 && height % pixel_size == 0 && area / square > bytes_on_frame as u64 {
            return Some(pixel_size);
        }
        pixel_size = pixel_size - 1;
    }
    None
}

/// No edge above `gcd(width, height)` tiles the frame.
proof fn lemma_fit_below_gcd(required: nat, width: nat, height: nat, t: nat)
    requires
        block_fits(required, width, height, t),
    ensures
        t <= spec_gcd(width, height),
{
    lemma_gcd_divisors(width, height);
    let g = spec_gcd(width, height);
    if g == 0 {
        assert(g % (width + 1) == 0);
        assert(g % (height + 1) == 0);
        assert(width % (width + 1) == width) by {
            vstd::arithmetic::div_mod::lemma_small_mod(width, width + 1);
        }
        assert(height % (height + 1) == height) by {
            vstd::arithmetic::div_mod::lemma_small_mod(height, height + 1);
        }
        assert(width == 0 && height == 0);
        assert((width * height) / (t * t) == 0) by (nonlinear_arith)
            requires
                width == 0,
                t > 0,
        ;
        assert(width * height == 0) by (nonlinear_arith)
            requires
                width == 0,
        ;
    } else {
        lemma_divisor_le(g, t);
    }
}

/// The final component of a path, as `std::path::Path::file_name` gives it.
pub uninterp spec fn path_file_name(path: Seq<char>) -> Option<Seq<char>>;

/// Relies on `std::path::Path::file_name`: the final component of the path,
/// `None` where the path ends in `..` or has no component.
#[verifier::external_body]
fn file_name_of(path: &str) -> (r: Option<String>)
    ensures
        match path_file_name(path@) {
            Some(n) => r is Some && r->Some_0@ == n,
            None => r is None,
        },
{
    match std::path::Path::new(path).file_name() {
        Some(n) => n.to_str().map(String::from),
        None => None,
    }
}

/// Payload bytes per frame of a frame geometry and mode, where they divide
/// exactly.
pub open spec fn geometry_bytes(t: VideoType, pixel_size: nat, width: nat, height: nat) -> Option<nat> {
    frame_bytes(width * height, pixel_size, byte_ratio(t).0 as nat, byte_ratio(t).1 as nat)
}

/// The first thing wrong with a session's parameters, checked in this order:
/// a frame too large to hold in memory; block size, frame and mode that do
/// not tile whole blocks and bytes (or hold no byte); a frame count or
/// padding that overflows its header field; a path without a file name; a
/// file name that is not at most 32 ASCII characters; a checksum that is not
/// 64 ASCII characters.
pub open spec fn session_error(
    t: VideoType,
    path: Seq<char>,
    pixel_size: nat,
    width: nat,
    height: nat,
    file_size: nat,
    checksum: Seq<char>,
) -> Option<ConfigError> {
    if 3 * width * height > usize::MAX {
        Some(ConfigError::TooLarge)
    } else if !(pixel_size > 0 && width % pixel_size == 0 && height % pixel_size == 0) {
        Some(ConfigError::IncompatibleDimensions)
    } else if geometry_bytes(t, pixel_size, width, height) is None {
        Some(ConfigError::IncompatibleDimensions)
    } else if geometry_bytes(t, pixel_size, width, height)->Some_0 == 0 {
        Some(ConfigError::IncompatibleDimensions)
    } else if frames_needed(file_size, geometry_bytes(t, pixel_size, width, height)->Some_0) > u32::MAX {
        Some(ConfigError::TooLarge)
    } else if padding_bytes(file_size, geometry_bytes(t, pixel_size, width, height)->Some_0) > u32::MAX {
        Some(ConfigError::TooLarge)
    } else if path_file_name(path) is None {
        Some(ConfigError::NoFileName)
    } else if !(is_ascii_chars(path_file_name(path)->Some_0) && path_file_name(path)->Some_0.len() <= 32) {
        Some(ConfigError::BadFileName)
    } else if !(is_ascii_chars(checksum) && checksum.len() == 64) {
        Some(ConfigError::BadChecksum)
    } else {
        None
    }
}

/// Parameters of one encode or decode run.
///
/// A session built for encoding has every field; one parsed from a header
/// has no frame geometry, frame rate or file size.
#[derive(Debug, Clone)]
pub struct VideoInfo {
    pub video_type: VideoType,
    pub checksum: String,
    pub filename: String,
    pub pixel_size: u8,
    pub unused_bytes: u32,
    pub total_frames: usize,
    pub file_size: Option<u64>,
    pub fps: Option<u32>,
    pub width: Option<u32>,
    pub height: Option<u32>,
}

impl VideoInfo {
    /// The fields that a header can hold: a checksum of 64 ASCII characters,
    /// a file name of at most 32, and a frame count of at most 32 bits.
    pub open spec fn header_ready(&self) -> bool {
        &&& is_ascii_chars(self.checksum@)
        &&& self.checksum@.len() == 64
        &&& is_ascii_chars(self.filename@)
        &&& self.filename@.len() <= 32
        &&& self.total_frames <= u32::MAX
    }

    /// A session for encoding a file of `file_size` bytes at `path` whose
    /// checksum is `checksum`, with every derived field computed once: file
    /// name, total frames (the bytes per frame divided into the file size,
    /// rounded up) and unused bytes (the padding of the last frame).
    pub fn new(
        video_type: VideoType,
        path: &str,
        pixel_size: u8,
        fps: u32,
        width: u32,
        height: u32,
        file_size: u64,
        checksum: String,
    ) -> (r: Result<VideoInfo, ConfigError>)
        ensures
            r is Err ==> session_error(video_type, path@, pixel_size as nat, width as nat, height as nat, file_size as nat, checksum@) == Some(r->Err_0),
            r is Ok ==> ({
                let info = r->Ok_0;
                let per_frame = geometry_bytes(video_type, pixel_size as nat, width as nat, height as nat)->Some_0;
                &&& session_error(video_type, path@, pixel_size as nat, width as nat, height as nat, file_size as nat, checksum@) is None
                &&& info.video_type == video_type
                &&& info.checksum == checksum
                &&& Some(info.filename@) == path_file_name(path@)
                &&& info.pixel_size == pixel_size
                &&& info.total_frames == frames_needed(file_size as nat, per_frame)
                &&& info.unused_bytes == padding_bytes(file_size as nat, per_frame)
                &&& info.file_size == Some(file_size)
                &&& info.fps == Some(fps)
                &&& info.width == Some(width)
                &&& info.height == Some(height)
                &&& info.header_ready()
            }),
    {
        proof {
            lemma_u32_product(width, height);
        }
        let total_pixels: u64 = width as u64 * height as u64;
        proof {
            lemma_fundamental_div_mod(usize::MAX as int, 3);
            assert(3 * width * height == 3 * total_pixels) by (nonlinear_arith)
                requires
                    total_pixels == width * height,
            ;
        }
        if total_pixels > (usize::MAX / 3) as u64 {
            return Err(ConfigError::TooLarge);
        }
        let ps = pixel_size as u32;
        if ps == 0 || width % ps != 0 || height % ps != 0 {
            return Err(ConfigError::IncompatibleDimensions);
        }
        let ratio: (u32, u32) = match video_type {
            VideoType::BlackNWhite => (1, 8),
            VideoType::GrayScale => (3, 8),
            VideoType::Color => (3, 8),
            VideoType::Color8 => (1, 2),
            VideoType::Color16 => (3, 2),
        };
        assert(ratio == byte_ratio(video_type));
        let per_frame = match get_bytes_per_frame(total_pixels, ps, ratio) {
            Ok(v) => v,
            Err(e) => return Err(e),
        };
        if per_frame == 0 {
            return Err(ConfigError::IncompatibleDimensions);
        }
        let rest = file_size % per_frame;
        proof {
            lemma_fundamental_div_mod(file_size as int, per_frame as int);
            assert(rest != 0 ==> file_size / per_frame < file_size) by (nonlinear_arith)
                requires
                    file_size == per_frame * (file_size / per_frame) + rest,
                    per_frame >= 1,
                    rest >= 0,
                    file_size / per_frame >= 0,
            ;
        }
        let frames: u64 = file_size / per_frame + if rest == 0 { 0 } else { 1 };
        if frames > u32::MAX as u64 {
            return Err(ConfigError::TooLarge);
        }
        let unused: u64 = if rest == 0 { 0 } else { per_frame - rest };
        proof {
            assert(per_frame * frames - file_size == unused) by (nonlinear_arith)
                requires
                    file_size == per_frame * (file_size / per_frame) + rest,
                    frames == file_size / per_frame + if rest == 0 { 0int } else { 1int },
                    unused == if rest == 0 { 0int } else { per_frame - rest },
            ;
        }
        if unused > u32::MAX as u64 {
            return Err(ConfigError::TooLarge);
        }
        let filename = match file_name_of(path) {
            Some(n) => n,
            None => return Err(ConfigError::NoFileName),
        };
        if !(filename.is_ascii() && filename.as_str().unicode_len() <= 32) {
            return Err(ConfigError::BadFileName);
        }
        if !(checksum.is_ascii() && checksum.as_str().unicode_len() == 64) {
            return Err(ConfigError::BadChecksum);
        }
        Ok(VideoInfo {
            video_type,
            checksum,
            filename,
            pixel_size,
            unused_bytes: unused as u32,
            total_frames: frames as usize,
            file_size: Some(file_size),
            fps: Some(fps),
            width: Some(width),
            height: Some(height),
        })
    }

    /// Pixels in a frame.
    pub fn total_pixels(&self) -> (r: u64)
        requires
            self.width is Some,
            self.height is Some,
        ensures
            r == self.width->Some_0 * self.height->Some_0,
    {
        let width = self.width();
        let height = self.height();
        proof {
            lemma_u32_product(width, height);
        }
        width as u64 * height as u64
    }

    /// Payload bytes per frame of this session's geometry and mode.
    pub fn bytes_per_frame(&self) -> (r: Result<u64, ConfigError>)
        requires
            self.width is Some,
            self.height is Some,
        ensures
            3 * self.width->Some_0 * self.height->Some_0 > u64::MAX ==> r == Err::<u64, ConfigError>(
                ConfigError::TooLarge,
            ),
            3 * self.width->Some_0 * self.height->Some_0 <= u64::MAX ==> match geometry_bytes(
                self.video_type,
                self.pixel_size as nat,
                self.width->Some_0 as nat,
                self.height->Some_0 as nat,
            ) {
                Some(v) => r is Ok && r->Ok_0 == v,
                None => r == Err::<u64, ConfigError>(ConfigError::IncompatibleDimensions),
            },
    {
        let total_pixels = self.total_pixels();
        proof {
            assert(3 * self.width->Some_0 * self.height->Some_0 == 3 * total_pixels) by (nonlinear_arith)
                requires
                    total_pixels == self.width->Some_0 * self.height->Some_0,
            ;
        }
        if total_pixels > u64::MAX / 3 {
            return Err(ConfigError::TooLarge);
        }
        let ratio: (u32, u32) = match self.video_type {
            VideoType::BlackNWhite => (1, 8),
            VideoType::GrayScale => (3, 8),
            VideoType::Color => (3, 8),
            VideoType::Color8 => (1, 2),
            VideoType::Color16 => (3, 2),
        };
        assert(ratio == byte_ratio(self.video_type));
        get_bytes_per_frame(total_pixels, self.pixel_size as u32, ratio)
    }

    /// Name of the file that the payload holds.
    pub fn filename(&self) -> (r: String)
        ensures
            r@ == self.filename@,
    {
        self.filename.clone()
    }

    /// Checksum of the file that the payload holds.
    pub fn checksum(&self) -> (r: String)
        ensures
            r@ == self.checksum@,
    {
        self.checksum.clone()
    }

    /// Padding bytes at the end of the last frame.
    pub fn unused_bytes(&self) -> (r: u32)
        ensures
            r == self.unused_bytes,
    {
        self.unused_bytes
    }

    /// Payload frames after the header frame.
    pub fn total_frames(&self) -> (r: usize)
        ensures
            r == self.total_frames,
    {
        self.total_frames
    }

    /// Size of the source file in bytes.
    pub fn file_size(&self) -> (r: u64)
        requires
            self.file_size is Some,
        ensures
            r == self.file_size->Some_0,
    {
        self.file_size.unwrap()
    }

    /// Frames per second of the video to write.
    pub fn fps(&self) -> (r: u32)
        requires
            self.fps is Some,
        ensures
            r == self.fps->Some_0,
    {
        self.fps.unwrap()
    }

    /// Frame width in pixels.
    pub fn width(&self) -> (r: u32)
        requires
            self.width is Some,
        ensures
            r == self.width->Some_0,
    {
        self.width.unwrap()
    }

    /// Frame height in pixels.
    pub fn height(&self) -> (r: u32)
        requires
            self.height is Some,
        ensures
            r == self.height->Some_0,
    {
        self.height.unwrap()
    }

    /// A session from the fields of a parsed header.
    pub fn from_parse(
        video_type: VideoType,
        checksum: String,
        filename: String,
        pixel_size: u8,
        unused_bytes: u32,
        total_frames: usize,
    ) -> (r: VideoInfo)
        ensures
            r.video_type == video_type,
            r.checksum == checksum,
            r.filename == filename,
            r.pixel_size == pixel_size,
            r.unused_bytes == unused_bytes,
            r.total_frames == total_frames,
            r.file_size is None,
            r.fps is None,
            r.width is None,
            r.height is None,
    {
        VideoInfo {
            video_type,
            checksum,
            filename,
            pixel_size,
            unused_bytes,
            total_frames,
            file_size: None,
            fps: None,
            width: None,
            height: None,
        }
    }
}

} // verus!
