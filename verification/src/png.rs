//! How a PNG file is laid out, and the test that tells whether the `image` crate can decode it.
//!
//! The crate takes the palette of a file for whole colours of three bytes. Files whose palette has
//! some other length are told apart here, before the crate is asked for what they show.
use vstd::prelude::*;

verus! {

/// The number of the colour type whose pixels are entries of a palette.
pub const INDEXED: u8 = 3;

/// The bytes that a PNG file begins with.
pub open spec fn png_magic() -> Seq<u8> {
    seq![0x89, 0x50, 0x4e, 0x47, 0x0d, 0x0a, 0x1a, 0x0a]
}

/// The length that a chunk states.
pub open spec fn chunk_length(bytes: Seq<u8>, at: int) -> int {
    bytes[at] * 0x100_0000 + bytes[at + 1] * 0x1_0000 + bytes[at + 2] * 0x100 + bytes[at + 3]
}

/// The chunk is a palette: `PLTE`.
pub open spec fn is_palette(bytes: Seq<u8>, at: int) -> bool {
    bytes[at + 4] == 0x50 && bytes[at + 5] == 0x4c && bytes[at + 6] == 0x54 && bytes[at + 7] == 0x45
}

/// The chunk holds pixels: `IDAT`.
pub open spec fn is_data(bytes: Seq<u8>, at: int) -> bool {
    bytes[at + 4] == 0x49 && bytes[at + 5] == 0x44 && bytes[at + 6] == 0x41 && bytes[at + 7] == 0x54
}

/// The palettes before the pixels, from the chunk at `at` on, have whole colours.
pub open spec fn palettes_whole(bytes: Seq<u8>, at: int) -> bool
    decreases bytes.len() - at,
{
    at + 8 > bytes.len() || is_data(bytes, at) || {
        let next = at + 12 + chunk_length(bytes, at);
        &&& is_palette(bytes, at) ==> chunk_length(bytes, at) % 3 == 0
        &&& next > bytes.len() || palettes_whole(bytes, next)
    }
}

/// The file is no PNG file, or its pixels are no entries of a palette, or the palette has whole
/// colours. The colour type stands in the first chunk.
pub open spec fn png_sound(bytes: Seq<u8>) -> bool {
    png_magic().is_prefix_of(bytes) && bytes.len() > 25 && bytes[25] == INDEXED ==> palettes_whole(
        bytes,
        8,
    )
}

fn read_length(bytes: &[u8], at: usize) -> (n: u64)
    requires
        at + 4 <= bytes.len(),
    ensures
        n == chunk_length(bytes@, at as int),
{
    bytes[at] as u64 * 0x100_0000 + bytes[at + 1] as u64 * 0x1_0000 + bytes[at + 2] as u64 * 0x100
        + bytes[at + 3] as u64
}

fn has_whole_palettes(bytes: &[u8]) -> (b: bool)
    requires
        bytes@.len() >= 8,
    ensures
        b == palettes_whole(bytes@, 8),
{
    let mut at: usize = 8;
    while bytes.len() - at >= 8
        invariant
            at <= bytes@.len(),
            palettes_whole(bytes@, at as int) == palettes_whole(bytes@, 8),
        decreases bytes@.len() - at,
    {
        if bytes[at + 4] == 0x49 && bytes[at + 5] == 0x44 && bytes[at + 6] == 0x41 && bytes[at + 7]
            == 0x54 {
            return true;
        }
        let n = read_length(bytes, at);
        if bytes[at + 4] == 0x50 && bytes[at + 5] == 0x4c && bytes[at + 6] == 0x54 && bytes[at + 7]
            == 0x45 && n % 3 != 0 {
            return false;
        }
        if n + 12 > (bytes.len() - at) as u64 {
            return true;
        }
        at = at + 12 + n as usize;
    }
    true
}

fn has_magic(bytes: &[u8]) -> (b: bool)
    ensures
        b == png_magic().is_prefix_of(bytes@),
{
    let b = bytes.len() >= 8 && bytes[0] == 0x89 && bytes[1] == 0x50 && bytes[2] == 0x4e && bytes[3]
        == 0x47 && bytes[4] == 0x0d && bytes[5] == 0x0a && bytes[6] == 0x1a && bytes[7] == 0x0a;
    proof {
        let magic = png_magic();
        if b {
            assert(magic =~= bytes@.take(8));
        } else if magic.is_prefix_of(bytes@) {
            assert(forall|i: int| 0 <= i < 8 ==> magic[i] == bytes@[i]);
            assert(magic[0] == 0x89 && magic[1] == 0x50 && magic[2] == 0x4e && magic[3] == 0x47);
            assert(magic[4] == 0x0d && magic[5] == 0x0a && magic[6] == 0x1a && magic[7] == 0x0a);
        }
    }
    b
}

/// Whether the file is no PNG file, or one that can be decoded, whatever comes of it.
pub fn is_sound_png(bytes: &[u8]) -> (b: bool)
    ensures
        b == png_sound(bytes@),
{
    !has_magic(bytes) || bytes.len() <= 25 || bytes[25] != INDEXED || has_whole_palettes(bytes)
}

/// A file with indexed colours is refused where one comes, going from chunk to chunk as their
/// lengths say, to a palette of broken colours before the data.
pub proof fn broken_palettes_are_refused(bytes: Seq<u8>, places: Seq<int>, i: int)
    requires
        places.len() > 0,
        places[0] == 8,
        0 <= i < places.len(),
        forall|j: int|
            0 <= j < i ==> {
                &&& (#[trigger] places[j]) + 8 <= bytes.len()
                &&& places[j + 1] == places[j] + 12 + bytes[places[j]] * 0x100_0000 + bytes[places[j]
                    + 1] * 0x1_0000 + bytes[places[j] + 2] * 0x100 + bytes[places[j] + 3]
                &&& places[j + 1] <= bytes.len()
                &&& bytes.subrange(places[j] + 4, places[j] + 8) != seq![0x49u8, 0x44u8, 0x41u8, 0x54u8]
            },
        places[i] + 8 <= bytes.len(),
        bytes.subrange(places[i] + 4, places[i] + 8) == seq![0x50u8, 0x4cu8, 0x54u8, 0x45u8],
        (bytes[places[i]] * 0x100_0000 + bytes[places[i] + 1] * 0x1_0000 + bytes[places[i] + 2]
            * 0x100 + bytes[places[i] + 3]) % 3 != 0,
        png_magic().is_prefix_of(bytes),
        bytes.len() > 25,
        bytes[25] == 3,
    ensures
        !png_sound(bytes),
{
    lemma_broken_palette(bytes, places, i, 0);
}

proof fn lemma_name(bytes: Seq<u8>, at: int)
    requires
        0 <= at,
        at + 8 <= bytes.len(),
    ensures
        is_data(bytes, at) <==> bytes.subrange(at + 4, at + 8) == seq![0x49u8, 0x44u8, 0x41u8, 0x54u8],
        is_palette(bytes, at) <==> bytes.subrange(at + 4, at + 8) == seq![
            0x50u8,
            0x4cu8,
            0x54u8,
            0x45u8,
        ],
{
    let name = bytes.subrange(at + 4, at + 8);
    assert(name[0] == bytes[at + 4] && name[1] == bytes[at + 5] && name[2] == bytes[at + 6]
        && name[3] == bytes[at + 7]);
    if is_data(bytes, at) {
        assert(name =~= seq![0x49u8, 0x44u8, 0x41u8, 0x54u8]);
    }
    if is_palette(bytes, at) {
        assert(name =~= seq![0x50u8, 0x4cu8, 0x54u8, 0x45u8]);
    }
}

proof fn lemma_broken_palette(bytes: Seq<u8>, places: Seq<int>, i: int, j: int)
    requires
        0 <= j <= i < places.len(),
        places[j] >= 8,
        forall|x: int|
            0 <= x < i ==> {
                &&& (#[trigger] places[x]) + 8 <= bytes.len()
                &&& places[x + 1] == places[x] + 12 + bytes[places[x]] * 0x100_0000 + bytes[places[x]
                    + 1] * 0x1_0000 + bytes[places[x] + 2] * 0x100 + bytes[places[x] + 3]
                &&& places[x + 1] <= bytes.len()
                &&& bytes.subrange(places[x] + 4, places[x] + 8) != seq![0x49u8, 0x44u8, 0x41u8, 0x54u8]
            },
        places[i] + 8 <= bytes.len(),
        bytes.subrange(places[i] + 4, places[i] + 8) == seq![0x50u8, 0x4cu8, 0x54u8, 0x45u8],
        (bytes[places[i]] * 0x100_0000 + bytes[places[i] + 1] * 0x1_0000 + bytes[places[i] + 2]
            * 0x100 + bytes[places[i] + 3]) % 3 != 0,
    ensures
        !palettes_whole(bytes, places[j]),
    decreases i - j,
{
    lemma_name(bytes, places[j]);
    if j < i {
        assert(places[j] + 8 <= bytes.len());
        lemma_broken_palette(bytes, places, i, j + 1);
    } else {
        assert(bytes.subrange(places[i] + 4, places[i] + 8)[0] == 0x50u8);
        assert(bytes[places[i] + 4] == 0x50);
    }
}

/// A file without a palette, and one whose colours are not indexed, is never refused.
pub proof fn files_without_palettes_are_sound(bytes: Seq<u8>)
    ensures
        bytes.len() <= 25 || bytes[25] != 3 || !png_magic().is_prefix_of(bytes) ==> png_sound(bytes),
        (forall|at: int|
            8 <= at && at + 8 <= bytes.len() ==> #[trigger] bytes.subrange(at + 4, at + 8) != seq![
                0x50u8,
                0x4cu8,
                0x54u8,
                0x45u8,
            ]) ==> png_sound(bytes),
        png_magic() == seq![0x89u8, 0x50u8, 0x4eu8, 0x47u8, 0x0du8, 0x0au8, 0x1au8, 0x0au8],
{
    if forall|at: int|
        8 <= at && at + 8 <= bytes.len() ==> #[trigger] bytes.subrange(at + 4, at + 8) != seq![
            0x50u8,
            0x4cu8,
            0x54u8,
            0x45u8,
        ] {
        lemma_no_palette(bytes, 8);
    }
}

proof fn lemma_no_palette(bytes: Seq<u8>, at: int)
    requires
        at >= 8,
        forall|x: int|
            8 <= x && x + 8 <= bytes.len() ==> #[trigger] bytes.subrange(x + 4, x + 8) != seq![
                0x50u8,
                0x4cu8,
                0x54u8,
                0x45u8,
            ],
    ensures
        palettes_whole(bytes, at),
    decreases bytes.len() - at,
{
    if at + 8 <= bytes.len() {
        lemma_name(bytes, at);
        let next = at + 12 + chunk_length(bytes, at);
        if next <= bytes.len() {
            lemma_no_palette(bytes, next);
        }
    }
}

} // verus!
