//! Surroundings of a scene: panoramas in high or low dynamic range, and cubes made of them.
use crate::game_path::{
    lemma_plain_address_valid, parsed_address, spelled_address_reads_back, Address, GamePath,
};
use crate::mesh::{Float3, Float4};
use crate::jpeg::{is_sound_jpeg, jpeg_sound};
use crate::png::{is_sound_png, png_sound};
use crate::radiance::{has_sound_runs, runs_sound};
use crate::text::chars_of;
use vstd::prelude::*;

verus! {

/// A panorama in linear colours, row after row. Numbers are bit patterns of single-precision
/// floating point.
#[derive(Debug)]
pub struct Environment {
    pub width: u32,
    pub height: u32,
    pub rgb: Vec<Float3>,
}

/// The contents of a panorama.
pub struct EnvironmentModel {
    pub width: u32,
    pub height: u32,
    pub rgb: Seq<Float3>,
}

impl View for Environment {
    type V = EnvironmentModel;

    open spec fn view(&self) -> EnvironmentModel {
        EnvironmentModel { width: self.width, height: self.height, rgb: self.rgb@ }
    }
}

/// A picture of three bytes per pixel, row after row.
#[derive(Debug)]
pub struct RgbImage {
    pub width: u32,
    pub height: u32,
    pub rgb: Vec<u8>,
}

/// The contents of a picture.
pub struct RgbModel {
    pub width: u32,
    pub height: u32,
    pub rgb: Seq<u8>,
}

impl View for RgbImage {
    type V = RgbModel;

    open spec fn view(&self) -> RgbModel {
        RgbModel { width: self.width, height: self.height, rgb: self.rgb@ }
    }
}

/// What is in a value that may be missing.
pub open spec fn contents<A: View>(r: Option<A>) -> Option<A::V> {
    match r {
        Some(a) => Some(a@),
        None => None,
    }
}

/// The bytes that a Radiance file begins with: `#?RADIANCE`.
pub open spec fn radiance_magic() -> Seq<u8> {
    seq![0x23, 0x3f, 0x52, 0x41, 0x44, 0x49, 0x41, 0x4e, 0x43, 0x45]
}

/// The panorama in a Radiance file.
pub uninterp spec fn hdr_image(bytes: Seq<u8>) -> Option<EnvironmentModel>;

/// The picture in a file, whatever its format.
pub uninterp spec fn ldr_image(bytes: Seq<u8>) -> Option<RgbModel>;

/// As `hdr_image`, for files that the crate can unpack.
pub open spec fn hdr_panorama(bytes: Seq<u8>) -> Option<EnvironmentModel> {
    if runs_sound(bytes) {
        hdr_image(bytes)
    } else {
        None
    }
}

/// As `ldr_image`, for files that the crate can unpack.
pub open spec fn ldr_picture(bytes: Seq<u8>) -> Option<RgbModel> {
    if runs_sound(bytes) && jpeg_sound(bytes) && png_sound(bytes) {
        ldr_image(bytes)
    } else {
        None
    }
}

/// Whether the bytes are taken for a Radiance file (`image::guess_format`): they are exactly where
/// they begin with its magic bytes, which no other format of the table shares.
#[verifier::external_body]
pub(crate) fn looks_like_hdr(bytes: &[u8]) -> (b: bool)
    ensures
        b == radiance_magic().is_prefix_of(bytes@),
{
    matches!(image::guess_format(bytes), Ok(image::ImageFormat::Hdr))
}

/// Decodes a Radiance file (`image::load_from_memory_with_format`, `DynamicImage::to_rgb32f`).
/// The claim is that the panorama depends on the bytes alone and has a colour for each pixel;
/// `None` where the bytes cannot be decoded. A file in which the crate's number for the worth of
/// a run marker would overflow is not handed over.
#[verifier::external_body]
pub(crate) fn decode_hdr(bytes: &[u8]) -> (r: Option<Environment>)
    requires
        runs_sound(bytes@),
    ensures
        contents(r) == hdr_image(bytes@),
        r is Some ==> r->0.rgb@.len() == r->0.width * r->0.height,
{
    let image = image::load_from_memory_with_format(bytes, image::ImageFormat::Hdr).ok()?;
    let image = image.to_rgb32f();
    let bits = |[x, y, z]: [u32; 3]| Float3 { x, y, z };
    let rgb = image.pixels().map(|p| bits(p.0.map(|c| c.to_bits()))).collect();
    Some(Environment { width: image.width(), height: image.height(), rgb })
}

/// Decodes a picture, whatever its format (`image::guess_format`,
/// `image::load_from_memory_with_format`, `DynamicImage::to_rgb8`). The claim is that the picture
/// depends on the bytes alone and has three bytes for each pixel; `None` where the bytes cannot be
/// decoded. Radiance files are among the formats that are told apart, so what holds of
/// `decode_hdr` holds here. So are JPEG files: one of an unusual layout, or in which the level of
/// a block would overflow where the crate multiplies it, is not handed over; and PNG files: one
/// with a palette that is cut off within a colour is not handed over.
#[verifier::external_body]
pub(crate) fn decode_ldr(bytes: &[u8]) -> (r: Option<RgbImage>)
    requires
        runs_sound(bytes@),
        jpeg_sound(bytes@),
        png_sound(bytes@),
    ensures
        contents(r) == ldr_image(bytes@),
        r is Some ==> r->0.rgb@.len() == 3 * (r->0.width * r->0.height),
{
    let format = image::guess_format(bytes).ok()?;
    let image = image::load_from_memory_with_format(bytes, format).ok()?.to_rgb8();
    Some(RgbImage { width: image.width(), height: image.height(), rgb: image.into_raw() })
}

/// The colour of a pixel is what its three bytes stand for.
pub open spec fn linear_pixel<F: Fn(u8) -> u32>(
    linear: F,
    bytes: Seq<u8>,
    p: int,
    color: Float3,
) -> bool {
    &&& call_ensures(linear, (bytes[3 * p],), color.x)
    &&& call_ensures(linear, (bytes[3 * p + 1],), color.y)
    &&& call_ensures(linear, (bytes[3 * p + 2],), color.z)
}

/// The panorama that a picture makes when each byte is made linear.
pub open spec fn made_linear<F: Fn(u8) -> u32>(
    linear: F,
    image: RgbModel,
    e: EnvironmentModel,
) -> bool {
    &&& e.width == image.width
    &&& e.height == image.height
    &&& e.rgb.len() == image.rgb.len() / 3
    &&& forall|p: int|
        0 <= p < e.rgb.len() ==> linear_pixel(linear, image.rgb, p, #[trigger] e.rgb[p])
}

impl Environment {
    /// The panorama of a Radiance file.
    pub fn from_hdr_bytes(bytes: &[u8]) -> (r: Option<Environment>)
        ensures
            contents(r) == hdr_panorama(bytes@),
            r matches Some(e) ==> e.rgb@.len() == e.width * e.height,
    {
        if has_sound_runs(bytes) {
            decode_hdr(bytes)
        } else {
            None
        }
    }

    /// The panorama that a picture makes. `linear` gives the number that a byte stands for, with
    /// the exposure on top.
    pub fn from_ldr_image<F: Fn(u8) -> u32>(image: &RgbImage, linear: F) -> (e: Environment)
        requires
            forall|b: u8| call_requires(linear, (b,)),
        ensures
            made_linear(linear, image@, e@),
    {
        let n: usize = image.rgb.len() / 3;
        let mut rgb: Vec<Float3> = Vec::new();
        let mut p: usize = 0;
        while p < n
            invariant
                p <= n,
                n == image.rgb@.len() / 3,
                image.rgb@.len() <= usize::MAX,
                rgb@.len() == p,
                forall|b: u8| call_requires(linear, (b,)),
                forall|q: int|
                    0 <= q < p ==> linear_pixel(linear, image.rgb@, q, #[trigger] rgb@[q]),
            decreases n - p,
        {
            let x = linear(image.rgb[3 * p]);
            let y = linear(image.rgb[3 * p + 1]);
            let z = linear(image.rgb[3 * p + 2]);
            rgb.push(Float3 { x, y, z });
            p += 1;
        }
        Environment { width: image.width, height: image.height, rgb }
    }

    /// The panorama of a picture in a file of some other format than Radiance.
    pub fn from_ldr_bytes<F: Fn(u8) -> u32>(bytes: &[u8], linear: F) -> (r: Option<Environment>)
        requires
            forall|b: u8| call_requires(linear, (b,)),
        ensures
            from_ldr(bytes@, linear, r),
    {
        if !has_sound_runs(bytes) || !is_sound_jpeg(bytes) || !is_sound_png(bytes) {
            return None;
        }
        match decode_ldr(bytes) {
            Some(image) => Some(Environment::from_ldr_image(&image, linear)),
            None => None,
        }
    }

    /// The panorama of a file: Radiance where its first bytes say so, else any other format.
    pub fn from_bytes<F: Fn(u8) -> u32>(bytes: &[u8], linear: F) -> (r: Option<Environment>)
        requires
            forall|b: u8| call_requires(linear, (b,)),
        ensures
            if radiance_magic().is_prefix_of(bytes@) {
                contents(r) == hdr_panorama(bytes@)
            } else {
                from_ldr(bytes@, linear, r)
            },
    {
        if looks_like_hdr(bytes) {
            Environment::from_hdr_bytes(bytes)
        } else {
            Environment::from_ldr_bytes(bytes, linear)
        }
    }

    /// The panorama of a file: Radiance where the ending of its name says so, in whatever case,
    /// else any other format.
    pub fn from_file<F: Fn(u8) -> u32>(bytes: &[u8], extension: Option<&str>, linear: F) -> (r:
        Option<Environment>)
        requires
            forall|b: u8| call_requires(linear, (b,)),
        ensures
            if extension is Some && is_hdr_extension(extension->0@) {
                contents(r) == hdr_panorama(bytes@)
            } else {
                from_ldr(bytes@, linear, r)
            },
    {
        let hdr = match extension {
            Some(e) => says_hdr(e),
            None => false,
        };
        if hdr {
            Environment::from_hdr_bytes(bytes)
        } else {
            Environment::from_ldr_bytes(bytes, linear)
        }
    }
}

/// The panorama of a picture in a file of some other format than Radiance.
pub open spec fn from_ldr<F: Fn(u8) -> u32>(
    bytes: Seq<u8>,
    linear: F,
    r: Option<Environment>,
) -> bool {
    match ldr_picture(bytes) {
        Some(image) => r is Some && made_linear(linear, image, r->0@),
        None => r is None,
    }
}

/// The same letter, small or large.
pub open spec fn same_letter(c: char, small: char, large: char) -> bool {
    c == small || c == large
}

/// The ending of the name of a Radiance file, in whatever case.
pub open spec fn is_hdr_extension(s: Seq<char>) -> bool {
    &&& s.len() == 3
    &&& same_letter(s[0], 'h', 'H')
    &&& same_letter(s[1], 'd', 'D')
    &&& same_letter(s[2], 'r', 'R')
}

/// Whether this is the ending of the name of a Radiance file.
pub fn says_hdr(extension: &str) -> (b: bool)
    ensures
        b == is_hdr_extension(extension@),
{
    let c = chars_of(extension);
    c.len() == 3 && (c[0] == 'h' || c[0] == 'H') && (c[1] == 'd' || c[1] == 'D') && (c[2] == 'r'
        || c[2] == 'R')
}

/// The place of a texel of a cube: face after face, row after row.
pub open spec fn texel_index(size: int, face: int, x: int, y: int) -> int {
    (face * size + y) * size + x
}

/// Makes a cube of texels, its faces in the order right, left, top, bottom, front, back.
pub fn cube_texels<F: Fn(u32, u32, u32) -> Float4>(size: u32, texel: F) -> (out: Vec<Float4>)
    requires
        6 * (size * size) <= u32::MAX,
        forall|f: u32, x: u32, y: u32| call_requires(texel, (f, x, y)),
    ensures
        out@.len() == 6 * (size * size),
        forall|f: u32, x: u32, y: u32|
            f < 6 && x < size && y < size ==> call_ensures(
                texel,
                (f, x, y),
                #[trigger] out@[texel_index(size as int, f as int, x as int, y as int)],
            ),
{
    let mut out: Vec<Float4> = Vec::new();
    let ghost s = size as int;
    let mut f: u32 = 0;
    while f < 6
        invariant
            f <= 6,
            s == size,
            out@.len() == f * s * s,
            forall|f: u32, x: u32, y: u32| call_requires(texel, (f, x, y)),
            forall|g: u32, x: u32, y: u32|
                g < f && x < size && y < size ==> call_ensures(
                    texel,
                    (g, x, y),
                    #[trigger] out@[texel_index(s, g as int, x as int, y as int)],
                ),
        decreases 6 - f,
    {
        let mut y: u32 = 0;
        while y < size
            invariant
                f < 6,
                y <= size,
                s == size,
                out@.len() == (f * s + y) * s,
                forall|f: u32, x: u32, y: u32| call_requires(texel, (f, x, y)),
                forall|g: u32, x: u32, v: u32|
                    (g < f || g == f && v < y) && x < size && v < size ==> call_ensures(
                        texel,
                        (g, x, v),
                        #[trigger] out@[texel_index(s, g as int, x as int, v as int)],
                    ),
            decreases size - y,
        {
            let mut x: u32 = 0;
            while x < size
                invariant
                    f < 6,
                    y < size,
                    x <= size,
                    s == size,
                    out@.len() == (f * s + y) * s + x,
                    forall|f: u32, x: u32, y: u32| call_requires(texel, (f, x, y)),
                    forall|g: u32, u: u32, v: u32|
                        (g < f || g == f && (v < y || v == y && u < x)) && u < size && v < size
                            ==> call_ensures(
                            texel,
                            (g, u, v),
                            #[trigger] out@[texel_index(s, g as int, u as int, v as int)],
                        ),
                decreases size - x,
            {
                let ghost before = out@;
                let t = texel(f, x, y);
                out.push(t);
                proof {
                    assert forall|g: u32, u: u32, v: u32|
                        (g < f || g == f && (v < y || v == y && u < x + 1)) && u < size && v
                            < size implies call_ensures(
                        texel,
                        (g, u, v),
                        #[trigger] out@[texel_index(s, g as int, u as int, v as int)],
                    ) by {
                        let at = texel_index(s, g as int, u as int, v as int);
                        if g == f && v == y && u == x {
                            assert(at == before.len());
                        } else {
                            lemma_texel_before(
                                s,
                                g as int,
                                u as int,
                                v as int,
                                f as int,
                                x as int,
                                y as int,
                            );
                            assert(out@[at] == before[at]);
                        }
                    }
                }
                x += 1;
            }
            proof {
                assert((f * s + y) * s + s == (f * s + (y + 1)) * s) by (nonlinear_arith);
            }
            y += 1;
        }
        proof {
            assert((f * s + s) * s == (f + 1) * s * s) by (nonlinear_arith);
        }
        f += 1;
    }
    proof {
        assert(6 * s * s == 6 * (s * s)) by (nonlinear_arith);
    }
    out
}

proof fn lemma_texel_before(s: int, g: int, u: int, v: int, f: int, x: int, y: int)
    requires
        0 <= g <= f,
        0 <= u < s,
        0 <= v < s,
        0 <= x < s,
        0 <= y < s,
        g < f || (v < y || v == y && u < x),
    ensures
        0 <= texel_index(s, g, u, v) < texel_index(s, f, x, y),
{
    assert(0 <= (g * s + v) * s) by (nonlinear_arith)
        requires
            0 <= g,
            0 <= v < s,
    ;
    let a = g * s + v;
    let b = f * s + y;
    if g < f {
        assert(a < b) by (nonlinear_arith)
            requires
                a == g * s + v,
                b == f * s + y,
                g < f,
                0 <= v < s,
                0 <= y,
        ;
    }
    if a < b {
        assert(a * s + u < b * s + x) by (nonlinear_arith)
            requires
                a < b,
                0 <= u < s,
                0 <= x,
        ;
    }
}

/// The address of the surroundings where none is set: `test:test.hdr`.
pub open spec fn standard_environment() -> Address {
    Address {
        namespace: seq!['t', 'e', 's', 't'],
        path: seq!['t', 'e', 's', 't', '.', 'h', 'd', 'r'],
    }
}

/// The address of the surroundings: the one that is set where it is an address, else the standard
/// one.
pub fn environment_address(setting: Option<&str>) -> (p: GamePath)
    ensures
        p@ == (match setting {
            Some(s) => match parsed_address(s@) {
                Ok(a) => a,
                Err(_) => standard_environment(),
            },
            None => standard_environment(),
        }),
{
    if let Some(s) = setting {
        if let Ok(p) = GamePath::parse(s) {
            return p;
        }
    }
    proof {
        reveal_strlit("test:test.hdr");
        let a = standard_environment();
        assert(a.spelled() =~= "test:test.hdr"@);
        lemma_plain_address_valid(a);
        spelled_address_reads_back(a);
    }
    match GamePath::parse("test:test.hdr") {
        Ok(p) => p,
        Err(_) => vstd::pervasive::unreached(),
    }
}

/// The four pixels around a point: the one at it, and those to its right, below and below right,
/// held at the edges.
#[derive(Clone, Copy, Debug)]
pub struct Corners {
    pub here: usize,
    pub right: usize,
    pub below: usize,
    pub diagonal: usize,
}

/// The place of the pixel in column `x` of row `y`, held at the edges, after `base` others.
pub open spec fn held(base: int, width: int, height: int, x: int, y: int) -> int {
    base + (if y < height {
        y
    } else {
        height - 1
    }) * width + (if x < width {
        x
    } else {
        width - 1
    })
}

/// Finds the four pixels around a point of a picture that lies behind `base` others.
pub fn corners(base: usize, width: usize, height: usize, x: usize, y: usize) -> (c: Corners)
    requires
        x < width,
        y < height,
        base + width * height <= usize::MAX,
    ensures
        c.here == held(base as int, width as int, height as int, x as int, y as int),
        c.right == held(base as int, width as int, height as int, x + 1, y as int),
        c.below == held(base as int, width as int, height as int, x as int, y + 1),
        c.diagonal == held(base as int, width as int, height as int, x + 1, y + 1),
        c.here < base + width * height,
        c.right < base + width * height,
        c.below < base + width * height,
        c.diagonal < base + width * height,
{
    let x1: usize = if x + 1 < width {
        x + 1
    } else {
        width - 1
    };
    let y1: usize = if y + 1 < height {
        y + 1
    } else {
        height - 1
    };
    proof {
        assert(y * width + width <= width * height && y1 * width + width <= width * height)
            by (nonlinear_arith)
            requires
                y < height,
                y1 < height,
        ;
    }
    Corners {
        here: base + y * width + x,
        right: base + y * width + x1,
        below: base + y1 * width + x,
        diagonal: base + y1 * width + x1,
    }
}

/// The bit of a number.
pub open spec fn bit(x: u32, i: u32) -> bool {
    (x >> i) & 1 == 1
}

/// The number with its bits in reverse order. Divided by two to the power of thirty-two it is the
/// mirror image of the number at the binary point.
pub fn reversed_bits(x: u32) -> (r: u32)
    ensures
        forall|i: u32| i < 32 ==> #[trigger] bit(r, i) == bit(x, (31 - i) as u32),
{
    let a = (x >> 16) | (x << 16);
    let b = ((a & 0x5555_5555) << 1) | ((a & 0xAAAA_AAAA) >> 1);
    let c = ((b & 0x3333_3333) << 2) | ((b & 0xCCCC_CCCC) >> 2);
    let d = ((c & 0x0F0F_0F0F) << 4) | ((c & 0xF0F0_F0F0) >> 4);
    let r = ((d & 0x00FF_00FF) << 8) | ((d & 0xFF00_FF00) >> 8);
    proof {
        assert forall|i: u32| i < 32 implies #[trigger] bit(r, i) == bit(
            x,
            (31 - i) as u32,
        ) by {
            let j = (31 - i) as u32;
            assert((r >> i) & 1 == (x >> j) & 1) by (bit_vector)
                requires
                    i < 32,
                    j == 31 - i,
                    a == (x >> 16) | (x << 16),
                    b == ((a & 0x5555_5555) << 1) | ((a & 0xAAAA_AAAA) >> 1),
                    c == ((b & 0x3333_3333) << 2) | ((b & 0xCCCC_CCCC) >> 2),
                    d == ((c & 0x0F0F_0F0F) << 4) | ((c & 0xF0F0_F0F0) >> 4),
                    r == ((d & 0x00FF_00FF) << 8) | ((d & 0xFF00_FF00) >> 8),
            ;
        }
    }
    r
}

/// Numbers with the same bits are the same: reversing twice gives the number back, and different
/// numbers have different reverses.
pub proof fn reversing_twice_is_nothing(x: u32, r: u32, y: u32)
    requires
        forall|i: u32| i < 32 ==> #[trigger] bit(r, i) == bit(x, (31 - i) as u32),
        forall|i: u32| i < 32 ==> #[trigger] bit(y, i) == bit(r, (31 - i) as u32),
    ensures
        y == x,
{
    assert forall|i: u32| i < 32 implies #[trigger] bit(y, i) == bit(x, i) by {
        let j = (31 - i) as u32;
        assert(bit(r, j) == bit(x, (31 - j) as u32));
    }
    lemma_same_bits(x, y);
}

proof fn lemma_same_bits(x: u32, y: u32)
    requires
        forall|i: u32| i < 32 ==> #[trigger] bit(y, i) == bit(x, i),
    ensures
        x == y,
{
    if x != y {
        let z = x ^ y;
        assert(z != 0) by (bit_vector)
            requires
                z == x ^ y,
                x != y,
        ;
        let i = choose|i: u32| i < 32 && #[trigger] bit(z, i);
        assert(exists|i: u32| i < 32 && #[trigger] bit(z, i)) by {
            lemma_some_bit(z);
        }
        assert(bit(y, i) == bit(x, i));
        assert(((x >> i) & 1) != ((y >> i) & 1)) by (bit_vector)
            requires
                z == x ^ y,
                (z >> i) & 1 == 1,
                i < 32,
        ;
        let a = (x >> i) & 1;
        let b = (y >> i) & 1;
        assert(a == 0 || a == 1) by (bit_vector)
            requires
                a == (x >> i) & 1,
        ;
        assert(b == 0 || b == 1) by (bit_vector)
            requires
                b == (y >> i) & 1,
        ;
    }
}

proof fn lemma_some_bit(z: u32)
    requires
        z != 0,
    ensures
        exists|i: u32| i < 32 && #[trigger] bit(z, i),
{
    lemma_high_bit(z, 32);
}

proof fn lemma_high_bit(z: u32, n: u32)
    requires
        n <= 32,
        z != 0,
        n == 32 || z < (1u32 << n),
    ensures
        exists|i: u32| i < 32 && #[trigger] bit(z, i),
    decreases n,
{
    if n == 0 {
        assert(1u32 << 0u32 == 1) by (bit_vector);
    } else {
        let k = (n - 1) as u32;
        if bit(z, k) {
        } else {
            assert(z < (1u32 << k)) by (bit_vector)
                requires
                    n <= 32,
                    n > 0,
                    k == n - 1,
                    n == 32 || z < (1u32 << n),
                    (z >> k) & 1 != 1,
            ;
            lemma_high_bit(z, k);
        }
    }
}

/// The files of the format with high range are told by their extension, in letters of either case.
pub proof fn extensions_are_told_in_either_case(s: Seq<char>)
    ensures
        is_hdr_extension(s) <==> s.len() == 3 && (s[0] == 'h' || s[0] == 'H') && (s[1] == 'd' || s[1]
            == 'D') && (s[2] == 'r' || s[2] == 'R'),
{
}

/// Texels lie face after face, row after row; each has a place of its own among the six faces.
pub proof fn texels_have_a_place_each(
    size: int,
    f: int,
    x: int,
    y: int,
    g: int,
    u: int,
    v: int,
)
    requires
        0 <= f < 6,
        0 <= g < 6,
        0 <= x < size,
        0 <= y < size,
        0 <= u < size,
        0 <= v < size,
    ensures
        0 <= texel_index(size, f, x, y) < 6 * (size * size),
        texel_index(size, f, x, y) == texel_index(size, g, u, v) ==> f == g && x == u && y == v,
        x + 1 < size ==> texel_index(size, f, x + 1, y) == texel_index(size, f, x, y) + 1,
        y + 1 < size ==> texel_index(size, f, 0, y + 1) == texel_index(size, f, size - 1, y) + 1,
        f + 1 < 6 ==> texel_index(size, f + 1, 0, 0) == texel_index(size, f, size - 1, size - 1) + 1,
{
    lemma_row_major(size, f, x, y);
    lemma_row_major(size, g, u, v);
    assert((f * size + (y + 1)) * size == (f * size + y) * size + size) by (nonlinear_arith);
    assert(((f + 1) * size + 0) * size == (f * size + (size - 1)) * size + size)
        by (nonlinear_arith);
    if texel_index(size, f, x, y) == texel_index(size, g, u, v) {
        vstd::arithmetic::div_mod::lemma_fundamental_div_mod_converse(
            texel_index(size, f, x, y),
            size,
            f * size + y,
            x,
        );
        vstd::arithmetic::div_mod::lemma_fundamental_div_mod_converse(
            texel_index(size, f, x, y),
            size,
            g * size + v,
            u,
        );
        vstd::arithmetic::div_mod::lemma_fundamental_div_mod_converse(f * size + y, size, f, y);
        vstd::arithmetic::div_mod::lemma_fundamental_div_mod_converse(f * size + y, size, g, v);
    }
}

proof fn lemma_row_major(size: int, f: int, x: int, y: int)
    requires
        0 <= f < 6,
        0 <= x < size,
        0 <= y < size,
    ensures
        0 <= texel_index(size, f, x, y) < 6 * (size * size),
        texel_index(size, f, x, y) == size * (f * size + y) + x,
        f * size + y == size * f + y,
{
    assert((f * size + y) * size == size * (f * size + y)) by (nonlinear_arith);
    assert(f * size == size * f) by (nonlinear_arith);
    assert(0 <= (f * size + y) * size && (f * size + y) * size + size <= 6 * (size * size))
        by (nonlinear_arith)
        requires
            0 <= f < 6,
            0 <= y < size,
    ;
}

/// A neighbour beyond the edge is the one at the edge.
pub proof fn neighbours_stop_at_the_edge(base: int, width: int, height: int, x: int, y: int)
    requires
        0 <= x < width,
        0 <= y < height,
    ensures
        held(base, width, height, x, y) == base + y * width + x,
        x + 1 < width ==> held(base, width, height, x + 1, y) == held(base, width, height, x, y) + 1,
        x + 1 == width ==> held(base, width, height, x + 1, y) == held(base, width, height, x, y),
        y + 1 < height ==> held(base, width, height, x, y + 1) == held(base, width, height, x, y)
            + width,
        y + 1 == height ==> held(base, width, height, x, y + 1) == held(base, width, height, x, y),
{
    assert((y + 1) * width == y * width + width) by (nonlinear_arith);
}

/// Each channel of a pixel is made of the byte of that channel of that pixel; width and height stay.
pub proof fn pixels_are_made_linear_by_channel<F: Fn(u8) -> u32>(
    linear: F,
    image: RgbModel,
    e: EnvironmentModel,
    p: int,
)
    requires
        made_linear(linear, image, e),
        0 <= p < e.rgb.len(),
    ensures
        e.width == image.width,
        e.height == image.height,
        e.rgb.len() == image.rgb.len() / 3,
        call_ensures(linear, (image.rgb[3 * p],), e.rgb[p].x),
        call_ensures(linear, (image.rgb[3 * p + 1],), e.rgb[p].y),
        call_ensures(linear, (image.rgb[3 * p + 2],), e.rgb[p].z),
{
    assert(linear_pixel(linear, image.rgb, p, e.rgb[p]));
}

/// A file of the format with high range begins with `#?RADIANCE`.
pub proof fn radiance_files_begin_with_their_name()
    ensures
        radiance_magic().len() == 10,
        radiance_magic()[0] == '#' as u8,
        radiance_magic()[1] == '?' as u8,
        radiance_magic()[2] == 'R' as u8,
        radiance_magic()[3] == 'A' as u8,
        radiance_magic()[4] == 'D' as u8,
        radiance_magic()[5] == 'I' as u8,
        radiance_magic()[6] == 'A' as u8,
        radiance_magic()[7] == 'N' as u8,
        radiance_magic()[8] == 'C' as u8,
        radiance_magic()[9] == 'E' as u8,
{
}

/// A file with colours of one byte each is made linear where it is sound in each format that it may
/// have and can be decoded; a panorama with high range is taken as it is decoded.
pub proof fn sound_files_are_decoded<F: Fn(u8) -> u32>(
    bytes: Seq<u8>,
    linear: F,
    r: Option<Environment>,
)
    ensures
        runs_sound(bytes) ==> hdr_panorama(bytes) == hdr_image(bytes),
        !runs_sound(bytes) ==> hdr_panorama(bytes) is None && ldr_picture(bytes) is None,
        runs_sound(bytes) && jpeg_sound(bytes) && png_sound(bytes) ==> ldr_picture(bytes)
            == ldr_image(bytes),
        !jpeg_sound(bytes) || !png_sound(bytes) ==> ldr_picture(bytes) is None,
        from_ldr(bytes, linear, r) ==> (r is Some <==> ldr_picture(bytes) is Some),
        from_ldr(bytes, linear, r) && r is Some ==> made_linear(linear, ldr_picture(bytes)->0, r->0@),
{
}

/// The surroundings are taken from the address that was set, where it is one; else from
/// `test:test.hdr`.
pub proof fn set_surroundings_are_taken(setting: Option<&str>, p: GamePath)
    requires
        call_ensures(environment_address, (setting,), p),
    ensures
        setting is Some && parsed_address(setting->0@) is Ok ==> p@ == parsed_address(
            setting->0@,
        )->Ok_0,
        setting is None || parsed_address(setting->0@) is Err ==> p@.namespace == seq![
            't',
            'e',
            's',
            't',
        ] && p@.path == seq!['t', 'e', 's', 't', '.', 'h', 'd', 'r'],
{
}

} // verus!
