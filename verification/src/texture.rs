//! Textures of four bytes per pixel, and the way to them from decoded images.
use vstd::prelude::*;

verus! {

/// A picture of four bytes per pixel: red, green, blue, opacity, row after row.
#[derive(Debug)]
pub struct Texture {
    pub width: u32,
    pub height: u32,
    pub rgba8: Vec<u8>,
}

/// Colour of one kind of square of the checkerboard.
pub open spec fn light_square() -> Seq<u8> {
    seq![214u8, 184, 112, 255]
}

/// Colour of the other kind.
pub open spec fn dark_square() -> Seq<u8> {
    seq![66u8, 56, 36, 255]
}

/// The bytes of pixel number `p`.
pub open spec fn pixel(bytes: Seq<u8>, p: int) -> Seq<u8> {
    bytes.subrange(4 * p, 4 * p + 4)
}

/// The colour of a checkerboard at column `x` of row `y`.
pub open spec fn checker_color(x: int, y: int, tile: int) -> Seq<u8> {
    if (x / tile + y / tile) % 2 == 0 {
        light_square()
    } else {
        dark_square()
    }
}

fn push4(bytes: &mut Vec<u8>, a: u8, b: u8, c: u8, d: u8)
    ensures
        final(bytes)@ == old(bytes)@ + seq![a, b, c, d],
{
    bytes.push(a);
    bytes.push(b);
    bytes.push(c);
    bytes.push(d);
    proof {
        assert(bytes@ =~= old(bytes)@ + seq![a, b, c, d]);
    }
}

impl Texture {
    /// One white pixel.
    pub fn white() -> (t: Texture)
        ensures
            t.width == 1,
            t.height == 1,
            t.rgba8@ == seq![255u8, 255, 255, 255],
    {
        let mut rgba8: Vec<u8> = Vec::new();
        push4(&mut rgba8, 255, 255, 255, 255);
        proof {
            assert(rgba8@ =~= seq![255u8, 255, 255, 255]);
        }
        Texture { width: 1, height: 1, rgba8 }
    }

    /// One pixel of a normal map that leaves the surface as it is.
    pub fn neutral_normal() -> (t: Texture)
        ensures
            t.width == 1,
            t.height == 1,
            t.rgba8@ == seq![128u8, 128, 255, 255],
    {
        let mut rgba8: Vec<u8> = Vec::new();
        push4(&mut rgba8, 128, 128, 255, 255);
        proof {
            assert(rgba8@ =~= seq![128u8, 128, 255, 255]);
        }
        Texture { width: 1, height: 1, rgba8 }
    }

    /// A square board of `size` times `size` pixels with tiles of `tile` pixels.
    pub fn checkerboard(size: u32, tile: u32) -> (t: Texture)
        requires
            tile > 0 || size == 0,
        ensures
            t.width == size,
            t.height == size,
            t.rgba8@.len() == 4 * size * size,
            forall|x: int, y: int|
                0 <= x < size && 0 <= y < size ==> #[trigger] board_pixel(
                    t.rgba8@,
                    size as int,
                    x,
                    y,
                ) == checker_color(x, y, tile as int),
    {
        let mut rgba8: Vec<u8> = Vec::new();
        let mut y: u32 = 0;
        while y < size
            invariant
                tile > 0 || size == 0,
                y <= size,
                rgba8@.len() == 4 * (size * y),
                forall|a: int, b: int|
                    0 <= a < size && 0 <= b < y ==> #[trigger] board_pixel(
                        rgba8@,
                        size as int,
                        a,
                        b,
                    ) == checker_color(a, b, tile as int),
            decreases size - y,
        {
            let mut x: u32 = 0;
            while x < size
                invariant
                    tile > 0,
                    x <= size,
                    y < size,
                    rgba8@.len() == 4 * (size * y + x),
                    forall|a: int, b: int|
                        0 <= a < size && 0 <= b < y ==> #[trigger] board_pixel(
                            rgba8@,
                            size as int,
                            a,
                            b,
                        ) == checker_color(a, b, tile as int),
                    forall|a: int|
                        0 <= a < x ==> #[trigger] board_pixel(rgba8@, size as int, a, y as int)
                            == checker_color(a, y as int, tile as int),
                decreases size - x,
            {
                let ghost before = rgba8@;
                let sum = x as u64 / tile as u64 + y as u64 / tile as u64;
                if sum % 2 == 0 {
                    push4(&mut rgba8, 214, 184, 112, 255);
                } else {
                    push4(&mut rgba8, 66, 56, 36, 255);
                }
                proof {
                    assert(size * y + x == y * size + x) by (nonlinear_arith);
                    assert forall|a: int, b: int| 0 <= a < size && 0 <= b < y implies #[trigger]
                    board_pixel(rgba8@, size as int, a, b) == checker_color(a, b, tile as int) by {
                        lemma_row_before(size as int, a, b, y as int);
                        assert(board_pixel(before, size as int, a, b) =~= board_pixel(
                            rgba8@,
                            size as int,
                            a,
                            b,
                        ));
                    }
                    assert forall|a: int| 0 <= a < x + 1 implies #[trigger] board_pixel(
                        rgba8@,
                        size as int,
                        a,
                        y as int,
                    ) == checker_color(a, y as int, tile as int) by {
                        assert(0 <= y * size) by (nonlinear_arith);
                        if a < x {
                            assert(board_pixel(before, size as int, a, y as int) =~= board_pixel(
                                rgba8@,
                                size as int,
                                a,
                                y as int,
                            ));
                        } else {
                            assert(board_pixel(rgba8@, size as int, a, y as int)
                                =~= checker_color(a, y as int, tile as int));
                        }
                    }
                }
                x += 1;
            }
            proof {
                assert(size * y + size == size * (y + 1)) by (nonlinear_arith);
                assert forall|a: int, b: int| 0 <= a < size && 0 <= b < y + 1 implies #[trigger]
                board_pixel(rgba8@, size as int, a, b) == checker_color(a, b, tile as int) by {}
            }
            y += 1;
        }
        proof {
            assert(4 * (size * size) == 4 * size * size) by (nonlinear_arith);
        }
        Texture { width: size, height: size, rgba8 }
    }
}

/// The pixel at column `x` of row `y` of a board.
pub open spec fn board_pixel(bytes: Seq<u8>, size: int, x: int, y: int) -> Seq<u8> {
    pixel(bytes, y * size + x)
}

proof fn lemma_row_before(size: int, a: int, b: int, y: int)
    by (nonlinear_arith)
    requires
        0 <= a < size,
        0 <= b < y,
    ensures
        0 <= b * size + a < size * y,
{
    assert(b * size + a < b * size + size);
    assert(b * size + size == (b + 1) * size);
    assert((b + 1) * size <= y * size);
}

/// How the pixels of a decoded image are stored.
#[derive(Clone, Copy, Debug, PartialEq, Eq, Structural)]
pub enum PixelFormat {
    R8,
    R8G8,
    R8G8B8,
    R8G8B8A8,
    R16,
    R16G16,
    R16G16B16,
    R16G16B16A16,
    R32G32B32Float,
    R32G32B32A32Float,
}

impl PixelFormat {
    /// Bytes of one pixel.
    pub open spec fn spec_size(self) -> int {
        match self {
            PixelFormat::R8 => 1,
            PixelFormat::R8G8 => 2,
            PixelFormat::R8G8B8 => 3,
            PixelFormat::R8G8B8A8 => 4,
            PixelFormat::R16 => 2,
            PixelFormat::R16G16 => 4,
            PixelFormat::R16G16B16 => 6,
            PixelFormat::R16G16B16A16 => 8,
            PixelFormat::R32G32B32Float => 12,
            PixelFormat::R32G32B32A32Float => 16,
        }
    }

    /// Bytes of one pixel.
    pub fn size(self) -> (n: usize)
        ensures
            n == self.spec_size(),
    {
        match self {
            PixelFormat::R8 => 1,
            PixelFormat::R8G8 => 2,
            PixelFormat::R8G8B8 => 3,
            PixelFormat::R8G8B8A8 => 4,
            PixelFormat::R16 => 2,
            PixelFormat::R16G16 => 4,
            PixelFormat::R16G16B16 => 6,
            PixelFormat::R16G16B16A16 => 8,
            PixelFormat::R32G32B32Float => 12,
            PixelFormat::R32G32B32A32Float => 16,
        }
    }
}

/// A decoded image.
#[derive(Debug)]
pub struct RawImage {
    pub width: u32,
    pub height: u32,
    pub format: PixelFormat,
    pub pixels: Vec<u8>,
}

/// The contents of an image.
pub struct ImageModel {
    pub width: u32,
    pub height: u32,
    pub format: PixelFormat,
    pub pixels: Seq<u8>,
}

impl View for RawImage {
    type V = ImageModel;

    open spec fn view(&self) -> ImageModel {
        ImageModel {
            width: self.width,
            height: self.height,
            format: self.format,
            pixels: self.pixels@,
        }
    }
}

/// The number of bytes of an image does not fit its size.
#[derive(Clone, Copy, Debug, PartialEq, Eq, Structural)]
pub struct SizeMismatch;

/// Arithmetic on floating-point numbers, which are held as their bit patterns.
pub trait FloatMath {
    /// The byte that stands for a number between zero and one, from its four bytes.
    fn quantize(&self, b0: u8, b1: u8, b2: u8, b3: u8) -> u8;

    /// A tangent for each vertex, for a surface given by positions, normals and texture
    /// coordinates of its vertices and by the corners of its triangles.
    fn tangents(
        &self,
        positions: &Vec<crate::mesh::Float3>,
        normals: &Vec<crate::mesh::Float3>,
        tex_coords: &Vec<crate::mesh::Float2>,
        indices: &Vec<u32>,
    ) -> Vec<crate::mesh::Float4>;
}

/// The byte `b` stands for the number in four bytes of a pixel.
pub open spec fn quantized<Q: FloatMath>(math: &Q, s: Seq<u8>, at: int, b: u8) -> bool {
    call_ensures(Q::quantize, (math, s[at], s[at + 1], s[at + 2], s[at + 3]), b)
}

/// `d` are the four bytes that stand for the stored pixel `s`. One channel is taken as grey, two
/// as grey and opacity; without opacity a pixel is opaque; of two-byte channels, which are stored
/// lower byte first, the upper byte counts.
pub open spec fn converted<Q: FloatMath>(
    math: &Q,
    format: PixelFormat,
    s: Seq<u8>,
    d: Seq<u8>,
) -> bool {
    match format {
        PixelFormat::R8 => d == seq![s[0], s[0], s[0], 255u8],
        PixelFormat::R8G8 => d == seq![s[0], s[0], s[0], s[1]],
        PixelFormat::R8G8B8 => d == seq![s[0], s[1], s[2], 255u8],
        PixelFormat::R8G8B8A8 => d == s,
        PixelFormat::R16 => d == seq![s[1], s[1], s[1], 255u8],
        PixelFormat::R16G16 => d == seq![s[1], s[1], s[1], s[3]],
        PixelFormat::R16G16B16 => d == seq![s[1], s[3], s[5], 255u8],
        PixelFormat::R16G16B16A16 => d == seq![s[1], s[3], s[5], s[7]],
        PixelFormat::R32G32B32Float => {
            &&& quantized(math, s, 0, d[0])
            &&& quantized(math, s, 4, d[1])
            &&& quantized(math, s, 8, d[2])
            &&& d[3] == 255
        },
        PixelFormat::R32G32B32A32Float => {
            &&& quantized(math, s, 0, d[0])
            &&& quantized(math, s, 4, d[1])
            &&& quantized(math, s, 8, d[2])
            &&& quantized(math, s, 12, d[3])
        },
    }
}

/// The bytes of stored pixel number `p`.
pub open spec fn stored_pixel(image: ImageModel, p: int) -> Seq<u8> {
    let n = image.format.spec_size();
    image.pixels.subrange(n * p, n * p + n)
}

/// The data consists of whole pixels.
pub open spec fn whole_pixels(image: ImageModel) -> bool {
    image.format == PixelFormat::R8G8B8A8 || image.pixels.len() as int % image.format.spec_size()
        == 0
}

/// The bytes of the texture are the converted pixels of the image.
pub open spec fn texture_of<Q: FloatMath>(math: &Q, image: ImageModel, t: Texture) -> bool {
    &&& t.width == image.width
    &&& t.height == image.height
    &&& t.rgba8@.len() == 4 * (image.width * image.height)
    &&& forall|p: int|
        0 <= p < image.width * image.height ==> converted(
            math,
            image.format,
            #[trigger] stored_pixel(image, p),
            pixel(t.rgba8@, p),
        )
}

/// The number of bytes is right for the size of the image.
pub open spec fn size_fits(image: ImageModel) -> bool {
    image.pixels.len() == image.format.spec_size() * (image.width * image.height)
}

/// Whether the data consists of whole pixels.
pub fn has_whole_pixels(image: &RawImage) -> (b: bool)
    ensures
        b == whole_pixels(image@),
{
    if image.format == PixelFormat::R8G8B8A8 {
        return true;
    }
    let n = image.format.size();
    image.pixels.len() % n == 0
}

/// The texture of a decoded image, unless its data does not fit its size.
pub fn gltf_image_to_texture<Q: FloatMath>(math: &Q, image: &RawImage) -> (r: Result<
    Texture,
    SizeMismatch,
>)
    requires
        whole_pixels(image@),
    ensures
        r is Ok <==> size_fits(image@),
        r matches Ok(t) ==> texture_of(math, image@, t),
{
    let n = image.format.size();
    let len = image.pixels.len();
    proof {
        assert(image.width * image.height <= 0xffff_ffff * 0xffff_ffff) by (nonlinear_arith)
            requires
                image.width <= 0xffff_ffff,
                image.height <= 0xffff_ffff,
        ;
        assert(0 <= image.width * image.height) by (nonlinear_arith);
    }
    let wanted: u128 = image.width as u128 * image.height as u128;
    proof {
        assert(n * wanted <= 16 * (0xffff_ffff * 0xffff_ffff)) by (nonlinear_arith)
            requires
                n <= 16,
                wanted <= 0xffff_ffff * 0xffff_ffff,
        ;
    }
    if len as u128 != n as u128 * wanted {
        return Err(SizeMismatch);
    }
    let mut rgba8: Vec<u8> = Vec::new();
    let mut at: usize = 0;
    let ghost mut p: int = 0;
    while at < len
        invariant
            len == image.pixels@.len(),
            n == image.format.spec_size(),
            n > 0,
            wanted == image.width * image.height,
            len == n * wanted,
            at == n * p,
            at <= len,
            0 <= p,
            rgba8@.len() == 4 * p,
            forall|q: int|
                0 <= q < p ==> converted(
                    math,
                    image.format,
                    #[trigger] stored_pixel(image@, q),
                    pixel(rgba8@, q),
                ),
        decreases len - at,
    {
        let ghost before = rgba8@;
        proof {
            assert(p < wanted && at + n <= len && n * (p + 1) == n * p + n) by (nonlinear_arith)
                requires
                    at == n * p,
                    at < len,
                    len == n * wanted,
                    n > 0,
            ;
        }
        let s = &image.pixels;
        let ghost src = stored_pixel(image@, p);
        proof {
            assert(src.len() == n);
            assert forall|j: int| 0 <= j < n implies src[j] == s@[at + j] by {}
        }
        match image.format {
            PixelFormat::R8 => {
                push4(&mut rgba8, s[at], s[at], s[at], 255);
            },
            PixelFormat::R8G8 => {
                push4(&mut rgba8, s[at], s[at], s[at], s[at + 1]);
            },
            PixelFormat::R8G8B8 => {
                push4(&mut rgba8, s[at], s[at + 1], s[at + 2], 255);
            },
            PixelFormat::R8G8B8A8 => {
                push4(&mut rgba8, s[at], s[at + 1], s[at + 2], s[at + 3]);
            },
            PixelFormat::R16 => {
                push4(&mut rgba8, s[at + 1], s[at + 1], s[at + 1], 255);
            },
            PixelFormat::R16G16 => {
                push4(&mut rgba8, s[at + 1], s[at + 1], s[at + 1], s[at + 3]);
            },
            PixelFormat::R16G16B16 => {
                push4(&mut rgba8, s[at + 1], s[at + 3], s[at + 5], 255);
            },
            PixelFormat::R16G16B16A16 => {
                push4(&mut rgba8, s[at + 1], s[at + 3], s[at + 5], s[at + 7]);
            },
            PixelFormat::R32G32B32Float => {
                let r = math.quantize(s[at], s[at + 1], s[at + 2], s[at + 3]);
                let g = math.quantize(s[at + 4], s[at + 5], s[at + 6], s[at + 7]);
                let b = math.quantize(s[at + 8], s[at + 9], s[at + 10], s[at + 11]);
                push4(&mut rgba8, r, g, b, 255);
            },
            PixelFormat::R32G32B32A32Float => {
                let r = math.quantize(s[at], s[at + 1], s[at + 2], s[at + 3]);
                let g = math.quantize(s[at + 4], s[at + 5], s[at + 6], s[at + 7]);
                let b = math.quantize(s[at + 8], s[at + 9], s[at + 10], s[at + 11]);
                let a = math.quantize(s[at + 12], s[at + 13], s[at + 14], s[at + 15]);
                push4(&mut rgba8, r, g, b, a);
            },
        }
        proof {
            let d = pixel(rgba8@, p);
            let c = rgba8@.subrange(before.len() as int, before.len() as int + 4);
            assert(d =~= c);
            assert(d[0] == rgba8@[4 * p] && d[1] == rgba8@[4 * p + 1] && d[2] == rgba8@[4 * p + 2]
                && d[3] == rgba8@[4 * p + 3]);
            if image.format == PixelFormat::R8G8B8A8 {
                assert(d =~= src);
            }
            if image.format == PixelFormat::R8 {
                assert(d =~= seq![src[0], src[0], src[0], 255u8]);
            }
            if image.format == PixelFormat::R8G8 {
                assert(d =~= seq![src[0], src[0], src[0], src[1]]);
            }
            if image.format == PixelFormat::R8G8B8 {
                assert(d =~= seq![src[0], src[1], src[2], 255u8]);
            }
            if image.format == PixelFormat::R16 {
                assert(d =~= seq![src[1], src[1], src[1], 255u8]);
            }
            if image.format == PixelFormat::R16G16 {
                assert(d =~= seq![src[1], src[1], src[1], src[3]]);
            }
            if image.format == PixelFormat::R16G16B16 {
                assert(d =~= seq![src[1], src[3], src[5], 255u8]);
            }
            if image.format == PixelFormat::R16G16B16A16 {
                assert(d =~= seq![src[1], src[3], src[5], src[7]]);
            }
            assert(converted(math, image.format, src, d));
            assert forall|q: int| 0 <= q < p + 1 implies converted(
                math,
                image.format,
                #[trigger] stored_pixel(image@, q),
                pixel(rgba8@, q),
            ) by {
                if q < p {
                    assert(pixel(before, q) =~= pixel(rgba8@, q));
                }
            }
            p = p + 1;
        }
        at = at + n;
    }
    proof {
        assert(p == wanted) by (nonlinear_arith)
            requires
                at == n * p,
                at == len,
                len == n * wanted,
                n > 0,
        ;
    }
    Ok(Texture { width: image.width, height: image.height, rgba8 })
}

/// Every channel of a pixel of the texture comes from the same channel of the same pixel of the
/// image: grey goes to all three colours, of two bytes the upper one is taken, numbers are
/// quantized, and what has no opacity is opaque.
pub proof fn channels_come_from_their_pixel<Q: FloatMath>(
    math: &Q,
    image: ImageModel,
    t: Texture,
    p: int,
)
    requires
        texture_of(math, image, t),
        size_fits(image),
        0 <= p < image.width * image.height,
    ensures
        t.width == image.width,
        t.height == image.height,
        t.rgba8@.len() == 4 * (image.width * image.height),
        ({
            let s = image.pixels;
            let r = t.rgba8@[4 * p];
            let g = t.rgba8@[4 * p + 1];
            let b = t.rgba8@[4 * p + 2];
            let a = t.rgba8@[4 * p + 3];
            match image.format {
                PixelFormat::R8 => r == s[p] && g == s[p] && b == s[p] && a == 255,
                PixelFormat::R8G8 => r == s[2 * p] && g == s[2 * p] && b == s[2 * p] && a == s[2 * p
                    + 1],
                PixelFormat::R8G8B8 => r == s[3 * p] && g == s[3 * p + 1] && b == s[3 * p + 2] && a
                    == 255,
                PixelFormat::R8G8B8A8 => r == s[4 * p] && g == s[4 * p + 1] && b == s[4 * p + 2]
                    && a == s[4 * p + 3],
                PixelFormat::R16 => r == s[2 * p + 1] && g == s[2 * p + 1] && b == s[2 * p + 1] && a
                    == 255,
                PixelFormat::R16G16 => r == s[4 * p + 1] && g == s[4 * p + 1] && b == s[4 * p + 1]
                    && a == s[4 * p + 3],
                PixelFormat::R16G16B16 => r == s[6 * p + 1] && g == s[6 * p + 3] && b == s[6 * p
                    + 5] && a == 255,
                PixelFormat::R16G16B16A16 => r == s[8 * p + 1] && g == s[8 * p + 3] && b == s[8 * p
                    + 5] && a == s[8 * p + 7],
                PixelFormat::R32G32B32Float => {
                    &&& call_ensures(
                        Q::quantize,
                        (math, s[12 * p], s[12 * p + 1], s[12 * p + 2], s[12 * p + 3]),
                        r,
                    )
                    &&& call_ensures(
                        Q::quantize,
                        (math, s[12 * p + 4], s[12 * p + 5], s[12 * p + 6], s[12 * p + 7]),
                        g,
                    )
                    &&& call_ensures(
                        Q::quantize,
                        (math, s[12 * p + 8], s[12 * p + 9], s[12 * p + 10], s[12 * p + 11]),
                        b,
                    )
                    &&& a == 255
                },
                PixelFormat::R32G32B32A32Float => {
                    &&& call_ensures(
                        Q::quantize,
                        (math, s[16 * p], s[16 * p + 1], s[16 * p + 2], s[16 * p + 3]),
                        r,
                    )
                    &&& call_ensures(
                        Q::quantize,
                        (math, s[16 * p + 4], s[16 * p + 5], s[16 * p + 6], s[16 * p + 7]),
                        g,
                    )
                    &&& call_ensures(
                        Q::quantize,
                        (math, s[16 * p + 8], s[16 * p + 9], s[16 * p + 10], s[16 * p + 11]),
                        b,
                    )
                    &&& call_ensures(
                        Q::quantize,
                        (math, s[16 * p + 12], s[16 * p + 13], s[16 * p + 14], s[16 * p + 15]),
                        a,
                    )
                },
            }
        }),
{
    let n = image.format.spec_size();
    let area = image.width * image.height;
    let s = stored_pixel(image, p);
    let d = pixel(t.rgba8@, p);
    assert(converted(math, image.format, s, d));
    assert(n * p + n <= n * area) by (nonlinear_arith)
        requires
            p + 1 <= area,
            n > 0,
    ;
    assert(n * p >= 0) by (nonlinear_arith)
        requires
            p >= 0,
            n > 0,
    ;
    assert(s.len() == n);
    assert(d.len() == 4);
    assert(t.rgba8@[4 * p] == d[0]);
    assert(t.rgba8@[4 * p + 1] == d[1]);
    assert(t.rgba8@[4 * p + 2] == d[2]);
    assert(t.rgba8@[4 * p + 3] == d[3]);
    assert forall|c: int| 0 <= c < n implies #[trigger] s[c] == image.pixels[n * p + c] by {}
}

/// A pixel takes one byte for each channel of eight bits, two for each of sixteen and four for
/// each number; an image fits where it holds as many pixels as its width and height say.
pub proof fn images_fit_by_their_bytes(image: ImageModel)
    ensures
        size_fits(image) <==> image.pixels.len() == (match image.format {
            PixelFormat::R8 => 1int,
            PixelFormat::R8G8 | PixelFormat::R16 => 2int,
            PixelFormat::R8G8B8 => 3int,
            PixelFormat::R8G8B8A8 | PixelFormat::R16G16 => 4int,
            PixelFormat::R16G16B16 => 6int,
            PixelFormat::R16G16B16A16 => 8int,
            PixelFormat::R32G32B32Float => 12int,
            PixelFormat::R32G32B32A32Float => 16int,
        }) * (image.width * image.height),
        size_fits(image) ==> whole_pixels(image),
{
    let n = image.format.spec_size();
    let area = image.width * image.height;
    if size_fits(image) {
        assert((n * area) % n == 0) by (nonlinear_arith)
            requires
                n > 0,
        ;
    }
}

/// A checkerboard begins light, is of one colour within a square, and changes it from each square
/// to the next, in both directions.
pub proof fn neighbouring_squares_differ(x: int, y: int, tile: int)
    requires
        tile > 0,
        x >= 0,
        y >= 0,
    ensures
        checker_color(0, 0, tile) == seq![214u8, 184u8, 112u8, 255u8],
        checker_color(x, y, tile) == seq![214u8, 184u8, 112u8, 255u8] || checker_color(x, y, tile)
            == seq![66u8, 56u8, 36u8, 255u8],
        checker_color(x + tile, y, tile) != checker_color(x, y, tile),
        checker_color(x, y + tile, tile) != checker_color(x, y, tile),
        (x + 1) % tile != 0 ==> checker_color(x + 1, y, tile) == checker_color(x, y, tile),
        (y + 1) % tile != 0 ==> checker_color(x, y + 1, tile) == checker_color(x, y, tile),
{
    let a = seq![214u8, 184u8, 112u8, 255u8];
    let b = seq![66u8, 56u8, 36u8, 255u8];
    assert(a[0] != b[0]);
    lemma_next_tile(x, tile);
    lemma_next_tile(y, tile);
    assert(0int / tile == 0) by (nonlinear_arith)
        requires
            tile > 0,
    ;
}

proof fn lemma_next_tile(x: int, tile: int)
    requires
        tile > 0,
        x >= 0,
    ensures
        (x + tile) / tile == x / tile + 1,
        (x + 1) % tile != 0 ==> (x + 1) / tile == x / tile,
{
    vstd::arithmetic::div_mod::lemma_fundamental_div_mod(x, tile);
    vstd::arithmetic::div_mod::lemma_fundamental_div_mod(x + 1, tile);
    let q = x / tile;
    let r = x % tile;
    assert(tile * (q + 1) == tile * q + tile) by (nonlinear_arith);
    vstd::arithmetic::div_mod::lemma_fundamental_div_mod_converse(x + tile, tile, q + 1, r);
    if r + 1 < tile {
        vstd::arithmetic::div_mod::lemma_fundamental_div_mod_converse(x + 1, tile, q, r + 1);
    } else {
        vstd::arithmetic::div_mod::lemma_fundamental_div_mod_converse(x + 1, tile, q + 1, 0);
    }
}

/// Pixels lie row after row, four bytes each.
pub proof fn pixels_lie_in_rows(bytes: Seq<u8>, size: int, x: int, y: int)
    requires
        0 <= x < size,
        0 <= y < size,
        bytes.len() == 4 * size * size,
    ensures
        board_pixel(bytes, size, x, y).len() == 4,
        forall|c: int|
            0 <= c < 4 ==> #[trigger] board_pixel(bytes, size, x, y)[c] == bytes[4 * (y * size + x)
                + c],
{
    assert(0 <= y * size + x && 4 * (y * size + x) + 4 <= 4 * size * size) by (nonlinear_arith)
        requires
            0 <= x < size,
            0 <= y < size,
    ;
}

} // verus!
