//! How the lines of a Radiance file are packed, and the test that tells whether the `image` crate
//! can unpack them.
//!
//! A line is packed component by component, or as pixels among which markers stand for runs of
//! the pixel before them. Several markers in a row are the digits of one long run, and the crate
//! multiplies their worth up without regard to what a number can hold. Files with too long a row
//! of markers are told apart here, before the crate is asked for what they show.
use image::codecs::hdr::HdrDecoder;
use vstd::prelude::*;

verus! {

/// What the head of a Radiance file says, and how many bytes are left behind it.
#[derive(Clone, Copy, Debug, PartialEq, Eq)]
pub struct RadianceHead {
    pub width: u32,
    pub height: u32,
    pub left: usize,
}

/// The head of a Radiance file.
pub uninterp spec fn radiance_head_in(bytes: Seq<u8>) -> Option<RadianceHead>;

/// How reading a line ends.
pub enum LineEnd {
    /// The line is complete, and this is the place behind it.
    At(int),
    /// The file breaks off in the line, or the line has not the right length.
    Refused,
    /// The worth of a marker exceeds all numbers.
    Overflow,
}

/// The pixel is a marker.
pub open spec fn is_marker(bytes: Seq<u8>, at: int) -> bool {
    bytes[at] == 1 && bytes[at + 1] == 1 && bytes[at + 2] == 1
}

/// The place behind one component of `pixels` pixels: pieces of up to 128 bytes behind their
/// number, or a number above 128 and the byte that is repeated. `None` where they break off or
/// are too many.
pub open spec fn component_end(bytes: Seq<u8>, at: int, pixels: int) -> Option<int>
    decreases bytes.len() - at,
{
    if pixels <= 0 {
        Some(at)
    } else if at >= bytes.len() {
        None
    } else {
        let n = bytes[at] as int;
        let (run, next) = if n <= 128 {
            (n, at + 1 + n)
        } else {
            (n - 128, at + 2)
        };
        if run > pixels || next > bytes.len() {
            None
        } else {
            component_end(bytes, next, pixels - run)
        }
    }
}

/// The place behind several components of a line.
pub open spec fn components_end(bytes: Seq<u8>, at: int, width: int, n: nat) -> Option<int>
    decreases n,
{
    if n == 0 {
        Some(at)
    } else {
        match component_end(bytes, at, width) {
            Some(next) => components_end(bytes, next, width, (n - 1) as nat),
            None => None,
        }
    }
}

/// How the line ends of which `x` pixels are known, where a marker is worth `factor`.
pub open spec fn pixels_end(bytes: Seq<u8>, at: int, x: int, width: int, factor: int) -> LineEnd
    decreases bytes.len() - at,
{
    if x >= width {
        LineEnd::At(at)
    } else if at + 4 > bytes.len() {
        LineEnd::Refused
    } else if !is_marker(bytes, at) {
        pixels_end(bytes, at + 4, x + 1, width, 1)
    } else if factor * 256 > usize::MAX {
        LineEnd::Overflow
    } else if x + bytes[at + 3] * factor > width {
        LineEnd::Refused
    } else {
        pixels_end(bytes, at + 4, x + bytes[at + 3] * factor, width, factor * 256)
    }
}

/// How a line ends. It is packed by components where its first bytes are those of no pixel.
pub open spec fn line_end(bytes: Seq<u8>, at: int, width: int) -> LineEnd {
    if at + 4 > bytes.len() {
        LineEnd::Refused
    } else if bytes[at] == 2 && bytes[at + 1] == 2 && bytes[at + 2] < 128 {
        match components_end(bytes, at + 4, width, 4) {
            Some(next) => LineEnd::At(next),
            None => LineEnd::Refused,
        }
    } else if is_marker(bytes, at) {
        LineEnd::Refused
    } else {
        pixels_end(bytes, at + 4, 1, width, 1)
    }
}

/// No line overflows, up to the first that is refused.
pub open spec fn lines_sound(bytes: Seq<u8>, at: int, width: int, lines: nat) -> bool
    decreases lines,
{
    lines == 0 || match line_end(bytes, at, width) {
        LineEnd::At(next) => lines_sound(bytes, next, width, (lines - 1) as nat),
        LineEnd::Refused => true,
        LineEnd::Overflow => false,
    }
}

/// The file is no Radiance file, or its lines can be unpacked, whatever comes of it.
pub open spec fn runs_sound(bytes: Seq<u8>) -> bool {
    radiance_head_in(bytes) matches Some(head) ==> head.width == 0 || lines_sound(
        bytes,
        bytes.len() - head.left,
        head.width as int,
        head.height as nat,
    )
}

/// Reads the head of a Radiance file (`image::codecs::hdr::HdrDecoder::new`,
/// `HdrDecoder::metadata`). The claim is that it depends on the bytes alone and that no more bytes
/// are left than there were; `None` where the bytes do not begin with such a head.
#[verifier::external_body]
fn read_head(bytes: &[u8]) -> (r: Option<RadianceHead>)
    ensures
        r == radiance_head_in(bytes@),
        r matches Some(head) ==> head.left <= bytes@.len(),
{
    let mut rest = bytes;
    let head = HdrDecoder::new(&mut rest).ok()?.metadata();
    Some(RadianceHead { width: head.width, height: head.height, left: rest.len() })
}

/// How reading a line ends.
enum LineStop {
    At(usize),
    Refused,
    Overflow,
}

impl LineStop {
    spec fn end(self) -> LineEnd {
        match self {
            LineStop::At(at) => LineEnd::At(at as int),
            LineStop::Refused => LineEnd::Refused,
            LineStop::Overflow => LineEnd::Overflow,
        }
    }
}

fn find_component_end(bytes: &[u8], start: usize, pixels: u32) -> (r: Option<usize>)
    requires
        start <= bytes@.len(),
    ensures
        match r {
            Some(at) => at <= bytes@.len() && component_end(bytes@, start as int, pixels as int)
                == Some(at as int),
            None => component_end(bytes@, start as int, pixels as int) is None,
        },
{
    let mut at = start;
    let mut left = pixels;
    while left > 0
        invariant
            at <= bytes@.len(),
            component_end(bytes@, at as int, left as int) == component_end(
                bytes@,
                start as int,
                pixels as int,
            ),
        decreases bytes@.len() - at,
    {
        if at >= bytes.len() {
            return None;
        }
        let n = bytes[at];
        let rest = bytes.len() - at - 1;
        let (run, taken): (u32, usize) = if n <= 128 {
            (n as u32, n as usize)
        } else {
            (n as u32 - 128, 1)
        };
        if run > left || taken > rest {
            return None;
        }
        at = at + 1 + taken;
        left = left - run;
    }
    Some(at)
}

fn find_components_end(bytes: &[u8], start: usize, width: u32) -> (r: Option<usize>)
    requires
        start <= bytes@.len(),
    ensures
        match r {
            Some(at) => at <= bytes@.len() && components_end(bytes@, start as int, width as int, 4)
                == Some(at as int),
            None => components_end(bytes@, start as int, width as int, 4) is None,
        },
{
    let mut at = start;
    let mut n: u8 = 4;
    while n > 0
        invariant
            n <= 4,
            at <= bytes@.len(),
            components_end(bytes@, at as int, width as int, n as nat) == components_end(
                bytes@,
                start as int,
                width as int,
                4,
            ),
        decreases n,
    {
        match find_component_end(bytes, at, width) {
            None => {
                return None;
            },
            Some(next) => {
                at = next;
            },
        }
        n -= 1;
    }
    Some(at)
}

fn find_pixels_end(bytes: &[u8], start: usize, width: u32) -> (r: LineStop)
    requires
        start <= bytes@.len(),
    ensures
        r.end() == pixels_end(bytes@, start as int, 1, width as int, 1),
        r matches LineStop::At(at) ==> at <= bytes@.len(),
{
    let end = width as usize;
    let mut at = start;
    let mut x: usize = 1;
    let mut factor: usize = 1;
    while x < end
        invariant
            start <= at <= bytes@.len(),
            end == width,
            1 <= factor,
            pixels_end(bytes@, at as int, x as int, width as int, factor as int) == pixels_end(
                bytes@,
                start as int,
                1,
                width as int,
                1,
            ),
        decreases bytes@.len() - at,
    {
        if bytes.len() - at < 4 {
            return LineStop::Refused;
        }
        if bytes[at] == 1 && bytes[at + 1] == 1 && bytes[at + 2] == 1 {
            let next = match factor.checked_mul(256) {
                None => {
                    return LineStop::Overflow;
                },
                Some(next) => next,
            };
            let digit = bytes[at + 3] as usize;
            proof {
                assert(digit * factor <= 256 * factor) by (nonlinear_arith)
                    requires
                        digit < 256,
                ;
            }
            let run = digit * factor;
            if run > end - x {
                return LineStop::Refused;
            }
            x = x + run;
            factor = next;
        } else {
            x += 1;
            factor = 1;
        }
        at += 4;
    }
    LineStop::At(at)
}

fn find_line_end(bytes: &[u8], at: usize, width: u32) -> (r: LineStop)
    requires
        at <= bytes@.len(),
    ensures
        r.end() == line_end(bytes@, at as int, width as int),
        r matches LineStop::At(next) ==> next <= bytes@.len(),
{
    if bytes.len() - at < 4 {
        return LineStop::Refused;
    }
    if bytes[at] == 2 && bytes[at + 1] == 2 && bytes[at + 2] < 128 {
        match find_components_end(bytes, at + 4, width) {
            Some(next) => LineStop::At(next),
            None => LineStop::Refused,
        }
    } else if bytes[at] == 1 && bytes[at + 1] == 1 && bytes[at + 2] == 1 {
        LineStop::Refused
    } else {
        find_pixels_end(bytes, at + 4, width)
    }
}

/// Whether the lines of the file can be unpacked, whatever comes of it, if it is a Radiance file.
pub fn has_sound_runs(bytes: &[u8]) -> (b: bool)
    ensures
        b == runs_sound(bytes@),
{
    let head = match read_head(bytes) {
        None => {
            return true;
        },
        Some(head) => head,
    };
    if head.width == 0 {
        return true;
    }
    let start = bytes.len() - head.left;
    let mut at = start;
    let mut lines = head.height;
    while lines > 0
        invariant
            at <= bytes@.len(),
            radiance_head_in(bytes@) == Some(head),
            head.width > 0,
            start == bytes@.len() - head.left,
            lines_sound(bytes@, at as int, head.width as int, lines as nat) == lines_sound(
                bytes@,
                start as int,
                head.width as int,
                head.height as nat,
            ),
        decreases lines,
    {
        match find_line_end(bytes, at, head.width) {
            LineStop::At(next) => {
                at = next;
            },
            LineStop::Refused => {
                return true;
            },
            LineStop::Overflow => {
                return false;
            },
        }
        lines -= 1;
    }
    true
}

/// Where no three bytes of one follow each other there is no marker, and no line of the file can
/// overflow: it is sound.
pub proof fn files_without_markers_are_sound(bytes: Seq<u8>)
    requires
        forall|i: int|
            0 <= i && i + 2 < bytes.len() ==> !(#[trigger] bytes[i] == 1 && bytes[i + 1] == 1
                && bytes[i + 2] == 1),
        radiance_head_in(bytes) matches Some(head) ==> head.left <= bytes.len(),
    ensures
        runs_sound(bytes),
{
    if let Some(head) = radiance_head_in(bytes) {
        lemma_lines_without_markers(
            bytes,
            bytes.len() - head.left,
            head.width as int,
            head.height as nat,
        );
    }
}

proof fn lemma_lines_without_markers(bytes: Seq<u8>, at: int, width: int, lines: nat)
    requires
        0 <= at,
        forall|i: int|
            0 <= i && i + 2 < bytes.len() ==> !(#[trigger] bytes[i] == 1 && bytes[i + 1] == 1
                && bytes[i + 2] == 1),
    ensures
        lines_sound(bytes, at, width, lines),
    decreases lines,
{
    if lines > 0 {
        if at + 4 <= bytes.len() {
            assert(!(bytes[at] == 1 && bytes[at + 1] == 1 && bytes[at + 2] == 1));
            lemma_pixels_without_markers(bytes, at + 4, 1, width);
            lemma_components_go_on(bytes, at + 4, width, 4);
        }
        if let LineEnd::At(next) = line_end(bytes, at, width) {
            lemma_lines_without_markers(bytes, next, width, (lines - 1) as nat);
        }
    }
}

proof fn lemma_pixels_without_markers(bytes: Seq<u8>, at: int, x: int, width: int)
    requires
        0 <= at,
        forall|i: int|
            0 <= i && i + 2 < bytes.len() ==> !(#[trigger] bytes[i] == 1 && bytes[i + 1] == 1
                && bytes[i + 2] == 1),
    ensures
        pixels_end(bytes, at, x, width, 1) matches LineEnd::At(next) ==> next >= at,
        !(pixels_end(bytes, at, x, width, 1) is Overflow),
    decreases bytes.len() - at,
{
    if x < width && at + 4 <= bytes.len() {
        assert(!(bytes[at] == 1 && bytes[at + 1] == 1 && bytes[at + 2] == 1));
        lemma_pixels_without_markers(bytes, at + 4, x + 1, width);
    }
}

proof fn lemma_component_goes_on(bytes: Seq<u8>, at: int, pixels: int)
    requires
        0 <= at,
    ensures
        component_end(bytes, at, pixels) matches Some(next) ==> next >= at,
    decreases bytes.len() - at,
{
    if pixels > 0 && at < bytes.len() {
        let n = bytes[at] as int;
        let (run, next) = if n <= 128 {
            (n, at + 1 + n)
        } else {
            (n - 128, at + 2)
        };
        if run <= pixels && next <= bytes.len() {
            lemma_component_goes_on(bytes, next, pixels - run);
        }
    }
}

proof fn lemma_components_go_on(bytes: Seq<u8>, at: int, width: int, n: nat)
    requires
        0 <= at,
    ensures
        components_end(bytes, at, width, n) matches Some(next) ==> next >= at,
    decreases n,
{
    if n > 0 {
        lemma_component_goes_on(bytes, at, width);
        if let Some(next) = component_end(bytes, at, width) {
            lemma_components_go_on(bytes, next, width, (n - 1) as nat);
        }
    }
}

/// A marker repeats the pixel before it as often as its last byte says, and one right behind it 256
/// times that; without a marker every four bytes are one pixel.
pub proof fn markers_repeat_pixels(bytes: Seq<u8>, at: int, x: int, width: int, factor: int)
    requires
        x < width,
        at + 4 <= bytes.len(),
    ensures
        !(bytes[at] == 1 && bytes[at + 1] == 1 && bytes[at + 2] == 1) ==> pixels_end(
            bytes,
            at,
            x,
            width,
            factor,
        ) == pixels_end(bytes, at + 4, x + 1, width, 1),
        bytes[at] == 1 && bytes[at + 1] == 1 && bytes[at + 2] == 1 && factor * 256 <= usize::MAX && x
            + bytes[at + 3] * factor <= width ==> pixels_end(bytes, at, x, width, factor)
            == pixels_end(bytes, at + 4, x + bytes[at + 3] * factor, width, factor * 256),
        bytes[at] == 1 && bytes[at + 1] == 1 && bytes[at + 2] == 1 && factor * 256 > usize::MAX
            ==> pixels_end(bytes, at, x, width, factor) is Overflow,
{
}

/// A part of a line holds runs: a byte up to 128 is followed by as many pixels, a greater one, less
/// 128, by one pixel that many times; a run that does not fit is refused, and the part ends where
/// its pixels do.
pub proof fn runs_fill_their_part(bytes: Seq<u8>, at: int, pixels: int)
    requires
        0 <= at < bytes.len(),
        pixels > 0,
    ensures
        component_end(bytes, at, 0) == Some(at),
        bytes[at] <= 128 && bytes[at] <= pixels && at + 1 + bytes[at] <= bytes.len()
            ==> component_end(bytes, at, pixels) == component_end(
            bytes,
            at + 1 + bytes[at],
            pixels - bytes[at],
        ),
        bytes[at] > 128 && bytes[at] - 128 <= pixels && at + 2 <= bytes.len() ==> component_end(
            bytes,
            at,
            pixels,
        ) == component_end(bytes, at + 2, pixels - (bytes[at] - 128)),
        bytes[at] <= 128 && bytes[at] > pixels || bytes[at] > 128 && bytes[at] - 128 > pixels
            ==> component_end(bytes, at, pixels) is None,
{
}

/// A line in runs begins with two twos and a byte below 128, and has four parts, one after another;
/// any other line is pixel after pixel, and may not begin with a marker.
pub proof fn lines_have_four_parts_or_pixels(bytes: Seq<u8>, at: int, width: int)
    requires
        at + 4 <= bytes.len(),
    ensures
        bytes[at] == 2 && bytes[at + 1] == 2 && bytes[at + 2] < 128 ==> line_end(bytes, at, width)
            == (match component_end(bytes, at + 4, width) {
            None => LineEnd::Refused,
            Some(a) => match component_end(bytes, a, width) {
                None => LineEnd::Refused,
                Some(b) => match component_end(bytes, b, width) {
                    None => LineEnd::Refused,
                    Some(c) => match component_end(bytes, c, width) {
                        None => LineEnd::Refused,
                        Some(d) => LineEnd::At(d),
                    },
                },
            },
        }),
        bytes[at] == 1 && bytes[at + 1] == 1 && bytes[at + 2] == 1 ==> line_end(bytes, at, width)
            is Refused,
        !(bytes[at] == 2 && bytes[at + 1] == 2 && bytes[at + 2] < 128) && !(bytes[at] == 1
            && bytes[at + 1] == 1 && bytes[at + 2] == 1) ==> line_end(bytes, at, width)
            == pixels_end(bytes, at + 4, 1, width, 1),
{
    reveal_with_fuel(components_end, 5);
}

} // verus!
