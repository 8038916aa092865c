//! How a JPEG file is laid out, and the test that tells whether the `image` crate can decode it.
//!
//! The crate multiplies the running level of a component by the first step of its quantization
//! table, and adds to the sides of a grey picture, without regard to what a number can hold; and
//! there are layouts that it does not expect. Files of the usual layouts are told apart here, and
//! the levels of sequential ones are followed from block to block, before the crate is asked for
//! what a file shows.
use crate::jpeg_scan::{
    has_sound_scan, is_alone, is_small_scan, scan_alone, scan_small, scan_sound, Channel, Scan,
    ScanPlan, SCAN,
};
use vstd::prelude::*;

verus! {

/// The marker of a baseline frame.
pub const BASELINE: u8 = 0xc0;

/// The marker of an extended sequential frame.
pub const EXTENDED: u8 = 0xc1;

/// The marker of a progressive frame.
pub const PROGRESSIVE: u8 = 0xc2;

/// The marker of code tables.
pub const CODES: u8 = 0xc4;

/// The marker of quantization tables.
pub const QUANTIZATION: u8 = 0xdb;

/// The marker of the restart interval.
pub const INTERVAL: u8 = 0xdd;

/// The marker of the first application segment.
pub const FIRST_APPLICATION: u8 = 0xe0;

/// The marker of the application segment that tells the colour space.
pub const COLOR_APPLICATION: u8 = 0xee;

/// What stands before the first scan of a file.
pub struct JpegHead {
    /// For the class and number of a code table, the place of its lengths.
    pub tables: Seq<Option<int>>,
    /// For the number of a quantization table, its first step.
    pub steps: Seq<Option<int>>,
    /// The place of the frame header.
    pub frame: Option<int>,
    pub progressive: bool,
    /// The number of units between restarts, zero where there are none.
    pub restart: int,
    /// A segment behind the frame header tells the colour space.
    pub colored: bool,
}

/// What is known where nothing has been read.
pub open spec fn empty_head() -> JpegHead {
    JpegHead {
        tables: Seq::new(32, |i: int| None),
        steps: Seq::new(4, |i: int| None),
        frame: None,
        progressive: false,
        restart: 0,
        colored: false,
    }
}

/// The number in two bytes.
pub open spec fn word(bytes: Seq<u8>, at: int) -> int {
    bytes[at] * 256 + bytes[at + 1]
}

/// The sum of the first `n` bytes.
pub open spec fn total(bytes: Seq<u8>, at: int, n: nat) -> int
    decreases n,
{
    if n == 0 {
        0
    } else {
        total(bytes, at, (n - 1) as nat) + bytes[at + n - 1]
    }
}

/// What is known behind code tables: each has its class and number, the number of codes of each
/// length, and the values.
pub open spec fn with_tables(bytes: Seq<u8>, at: int, end: int, head: JpegHead) -> Option<JpegHead>
    decreases end - at,
{
    if at == end {
        Some(head)
    } else if at + 17 > end {
        None
    } else {
        let id = bytes[at] as int;
        let next = at + 17 + total(bytes, at + 1, 16);
        if id >= 32 || id % 16 >= 4 || total(bytes, at + 1, 16) > 256 || next > end || next <= at {
            None
        } else {
            with_tables(
                bytes,
                next,
                end,
                JpegHead { tables: head.tables.update(id, Some(at + 1)), ..head },
            )
        }
    }
}

/// What is known behind quantization tables: each has its precision and number, and sixty-four
/// steps of one byte or of two.
pub open spec fn with_steps(bytes: Seq<u8>, at: int, end: int, head: JpegHead) -> Option<JpegHead>
    decreases end - at,
{
    if at == end {
        Some(head)
    } else if at > end {
        None
    } else {
        let id = bytes[at] as int;
        let next = if id < 16 {
            at + 65
        } else {
            at + 129
        };
        if id >= 32 || id % 16 >= 4 || next > end {
            None
        } else {
            let step = if id < 16 {
                bytes[at + 1] as int
            } else {
                word(bytes, at + 1)
            };
            with_steps(
                bytes,
                next,
                end,
                JpegHead { steps: head.steps.update(id % 16, Some(step)), ..head },
            )
        }
    }
}

/// What is known behind a segment whose contents stand between `at` and `end`.
pub open spec fn with_segment(
    bytes: Seq<u8>,
    marker: u8,
    at: int,
    end: int,
    head: JpegHead,
) -> Option<JpegHead> {
    if marker == CODES {
        with_tables(bytes, at, end, head)
    } else if marker == QUANTIZATION {
        with_steps(bytes, at, end, head)
    } else if marker == BASELINE || marker == EXTENDED || marker == PROGRESSIVE {
        if head.frame is Some || end - at < 6 || end - at != 6 + 3 * bytes[at + 5] {
            None
        } else {
            Some(JpegHead { frame: Some(at), progressive: marker == PROGRESSIVE, ..head })
        }
    } else if marker == INTERVAL {
        if end - at != 2 {
            None
        } else {
            Some(JpegHead { restart: word(bytes, at), ..head })
        }
    } else if marker == FIRST_APPLICATION && end - at == 4 {
        None
    } else {
        Some(
            JpegHead {
                colored: head.colored || (marker == COLOR_APPLICATION && head.frame is Some),
                ..head
            },
        )
    }
}

/// What is known where the first scan begins, and the place of its header. `None` where the
/// segments break off or contradict themselves.
pub open spec fn head_of(bytes: Seq<u8>, at: int, head: JpegHead) -> Option<(JpegHead, int)>
    decreases bytes.len() - at,
{
    if at + 4 > bytes.len() || bytes[at] != 0xff || bytes[at + 1] == 0 {
        None
    } else if bytes[at + 1] == 0xff {
        head_of(bytes, at + 1, head)
    } else {
        let next = at + 2 + word(bytes, at + 2);
        if next < at + 4 || next > bytes.len() {
            None
        } else if bytes[at + 1] == SCAN {
            Some((head, at + 2))
        } else {
            match with_segment(bytes, bytes[at + 1], at + 4, next, head) {
                None => None,
                Some(known) => head_of(bytes, next, known),
            }
        }
    }
}

/// The number of components of a frame.
pub open spec fn components_of(bytes: Seq<u8>, frame: int) -> int {
    bytes[frame + 5] as int
}

/// How many blocks across and down a component has in a unit, in one byte.
pub open spec fn sampling(bytes: Seq<u8>, frame: int, i: int) -> u8 {
    bytes[frame + 7 + 3 * i]
}

/// Blocks across, from both numbers in one byte.
pub open spec fn across(sampling: u8) -> int {
    sampling as int / 16
}

/// Blocks down, from both numbers in one byte.
pub open spec fn down(sampling: u8) -> int {
    sampling as int % 16
}

/// A component has one block in a unit.
pub open spec fn single(bytes: Seq<u8>, frame: int, i: int) -> bool {
    sampling(bytes, frame, i) == 0x11
}

/// The frame has one of the usual layouts: a grey picture, three components of which the first
/// may be finer by two, or four equal ones. No segment behind it tells the colour space of a grey
/// picture, and one with more blocks in a unit has sides that can be rounded up.
pub open spec fn usual_frame(bytes: Seq<u8>, frame: int, colored: bool) -> bool {
    let n = components_of(bytes, frame);
    if n == 1 {
        !colored && (single(bytes, frame, 0) || (word(bytes, frame + 1) <= 65528 && word(
            bytes,
            frame + 3,
        ) <= 65528))
    } else if n == 3 {
        &&& 1 <= across(sampling(bytes, frame, 0)) <= 2
        &&& 1 <= down(sampling(bytes, frame, 0)) <= 2
        &&& single(bytes, frame, 1)
        &&& single(bytes, frame, 2)
    } else {
        &&& n == 4
        &&& single(bytes, frame, 0)
        &&& single(bytes, frame, 1)
        &&& single(bytes, frame, 2)
        &&& single(bytes, frame, 3)
    }
}

/// A component of a scan as the scan header, at `scan`, tells it: the scan names the components
/// in the order of the frame, and for each its code tables. `None` where it does not, or a table
/// is missing.
pub open spec fn channel(bytes: Seq<u8>, head: JpegHead, frame: int, scan: int, i: int) -> Option<
    Channel,
> {
    let codes = bytes[scan + 4 + 2 * i] as int;
    let quantization = bytes[frame + 8 + 3 * i] as int;
    if bytes[scan + 3 + 2 * i] != bytes[frame + 6 + 3 * i] || codes / 16 >= 4 || codes % 16 >= 4
        || quantization >= 4 {
        None
    } else {
        match (head.tables[codes / 16], head.tables[16 + codes % 16], head.steps[quantization]) {
            (Some(levels), Some(coefficients), Some(step)) => Some(
                Channel {
                    levels: levels as usize,
                    coefficients: coefficients as usize,
                    step: step as u16,
                },
            ),
            _ => None,
        }
    }
}

/// How many units of `blocks` blocks cover a side.
pub open spec fn units_along(side: int, blocks: int) -> int {
    (side + 8 * blocks - 1) / (8 * blocks)
}

/// Blocks across and down that the first component has in a unit: one in a picture of one
/// component, whatever the frame says.
pub open spec fn unit_size(bytes: Seq<u8>, frame: int) -> (int, int) {
    if components_of(bytes, frame) == 1 {
        (1, 1)
    } else {
        (across(sampling(bytes, frame, 0)), down(sampling(bytes, frame, 0)))
    }
}

/// The scan, where it has all components of the frame.
pub open spec fn scan_of(bytes: Seq<u8>, head: JpegHead, frame: int, scan: int) -> Option<Scan> {
    let n = components_of(bytes, frame);
    if word(bytes, scan) != 6 + 2 * n || bytes[scan + 2] != n || exists|i: int|
        0 <= i < n && (#[trigger] channel(bytes, head, frame, scan, i)) is None {
        None
    } else {
        let (h, v) = unit_size(bytes, frame);
        Some(
            Scan {
                channels: Seq::new(n as nat, |i: int| channel(bytes, head, frame, scan, i)->0),
                blocks: h * v,
                restart: head.restart,
                units: units_along(word(bytes, frame + 3), h) * units_along(
                    word(bytes, frame + 1),
                    v,
                ),
            },
        )
    }
}

/// No level of the scan whose data begin at the place is too large: all its blocks are there and
/// fit, or it is the only one and its blocks fit whatever the data are.
pub open spec fn levels_sound(bytes: Seq<u8>, scan: Scan, at: int) -> bool {
    scan_sound(bytes, scan, at) || (scan_small(scan) && scan_alone(bytes, at))
}

/// The file is no JPEG file, or it is one of the usual layouts: not of more than four gigabytes,
/// and progressive, or with a scan of all components in which no level is too large.
pub open spec fn jpeg_sound(bytes: Seq<u8>) -> bool {
    bytes.len() >= 2 && bytes[0] == 0xff && bytes[1] == 0xd8 ==> {
        &&& bytes.len() <= 0xffff_ffff
        &&& match head_of(bytes, 2, empty_head()) {
            None => false,
            Some((head, scan)) => match head.frame {
                None => false,
                Some(frame) => {
                    &&& usual_frame(bytes, frame, head.colored)
                    &&& head.progressive || (scan_of(bytes, head, frame, scan) matches Some(s)
                        && levels_sound(bytes, s, scan + word(bytes, scan)))
                },
            },
        }
    }
}

/// The place that is known, as a number.
pub open spec fn place(at: Option<usize>) -> Option<int> {
    match at {
        Some(at) => Some(at as int),
        None => None,
    }
}

/// The step that is known, as a number.
pub open spec fn step(value: Option<u16>) -> Option<int> {
    match value {
        Some(value) => Some(value as int),
        None => None,
    }
}

/// What has been read of a file.
struct Head {
    tables: Vec<Option<usize>>,
    steps: Vec<Option<u16>>,
    frame: Option<usize>,
    progressive: bool,
    restart: u16,
    colored: bool,
}

impl View for Head {
    type V = JpegHead;

    closed spec fn view(&self) -> JpegHead {
        JpegHead {
            tables: self.tables@.map_values(|at: Option<usize>| place(at)),
            steps: self.steps@.map_values(|value: Option<u16>| step(value)),
            frame: place(self.frame),
            progressive: self.progressive,
            restart: self.restart as int,
            colored: self.colored,
        }
    }
}

impl Head {
    /// The lists are complete, and the frame header lies within the file.
    spec fn fits(self, bytes: Seq<u8>) -> bool {
        &&& self.tables@.len() == 32
        &&& self.steps@.len() == 4
        &&& self.frame matches Some(frame) ==> frame + 6 <= bytes.len() && frame + 6 + 3
            * components_of(bytes, frame as int) <= bytes.len()
    }

    fn new() -> (head: Head)
        ensures
            head@ == empty_head(),
            head.tables@.len() == 32,
            head.steps@.len() == 4,
            head.frame is None,
    {
        let mut tables: Vec<Option<usize>> = Vec::new();
        let mut i: usize = 0;
        while i < 32
            invariant
                i <= 32,
                tables@.len() == i,
                forall|j: int| 0 <= j < i ==> tables@[j] is None,
            decreases 32 - i,
        {
            tables.push(None);
            i += 1;
        }
        let steps: Vec<Option<u16>> = vec![None, None, None, None];
        let head = Head {
            tables,
            steps,
            frame: None,
            progressive: false,
            restart: 0,
            colored: false,
        };
        assert(head@.tables =~= empty_head().tables);
        assert(head@.steps =~= empty_head().steps);
        head
    }
}

fn read_word(bytes: &[u8], at: usize) -> (n: u16)
    requires
        at + 1 < bytes@.len(),
    ensures
        n == word(bytes@, at as int),
{
    bytes[at] as u16 * 256 + bytes[at + 1] as u16
}

fn add_up(bytes: &[u8], at: usize) -> (n: usize)
    requires
        at + 16 <= bytes.len(),
    ensures
        n == total(bytes@, at as int, 16),
        n <= 16 * 255,
{
    let mut n: usize = 0;
    let mut i: usize = 0;
    while i < 16
        invariant
            i <= 16,
            at + 16 <= bytes.len(),
            n == total(bytes@, at as int, i as nat),
            n <= i * 255,
        decreases 16 - i,
    {
        n = n + bytes[at + i] as usize;
        i += 1;
    }
    n
}

fn read_tables(bytes: &[u8], start: usize, end: usize, head: &mut Head) -> (b: bool)
    requires
        start <= end <= bytes@.len(),
        old(head).fits(bytes@),
    ensures
        final(head).fits(bytes@),
        match with_tables(bytes@, start as int, end as int, old(head)@) {
            Some(known) => b && final(head)@ == known,
            None => !b,
        },
{
    let mut at = start;
    while at != end
        invariant
            start <= at <= end <= bytes@.len(),
            head.fits(bytes@),
            with_tables(bytes@, at as int, end as int, head@) == with_tables(
                bytes@,
                start as int,
                end as int,
                old(head)@,
            ),
        decreases end - at,
    {
        if end - at < 17 {
            return false;
        }
        let id = bytes[at] as usize;
        let n = add_up(bytes, at + 1);
        if id >= 32 || id % 16 >= 4 || n > 256 || end - at - 17 < n {
            return false;
        }
        let ghost before = head@;
        head.tables.set(id, Some(at + 1));
        proof {
            assert(head@.tables =~= before.tables.update(id as int, Some(at + 1)));
        }
        at = at + 17 + n;
    }
    true
}

fn read_steps(bytes: &[u8], start: usize, end: usize, head: &mut Head) -> (b: bool)
    requires
        start <= end <= bytes@.len(),
        old(head).fits(bytes@),
    ensures
        final(head).fits(bytes@),
        match with_steps(bytes@, start as int, end as int, old(head)@) {
            Some(known) => b && final(head)@ == known,
            None => !b,
        },
{
    let mut at = start;
    while at != end
        invariant
            start <= at <= end <= bytes@.len(),
            head.fits(bytes@),
            with_steps(bytes@, at as int, end as int, head@) == with_steps(
                bytes@,
                start as int,
                end as int,
                old(head)@,
            ),
        decreases end - at,
    {
        let id = bytes[at] as usize;
        let size: usize = if id < 16 {
            65
        } else {
            129
        };
        if id >= 32 || id % 16 >= 4 || end - at < size {
            return false;
        }
        let value = if id < 16 {
            bytes[at + 1] as u16
        } else {
            read_word(bytes, at + 1)
        };
        let ghost before = head@;
        head.steps.set(id % 16, Some(value));
        proof {
            assert(head@.steps =~= before.steps.update((id % 16) as int, Some(value as int)));
        }
        at = at + size;
    }
    true
}

fn read_segment(bytes: &[u8], marker: u8, at: usize, end: usize, head: &mut Head) -> (b: bool)
    requires
        at <= end <= bytes@.len(),
        old(head).fits(bytes@),
    ensures
        final(head).fits(bytes@),
        match with_segment(bytes@, marker, at as int, end as int, old(head)@) {
            Some(known) => b && final(head)@ == known,
            None => !b,
        },
{
    if marker == CODES {
        read_tables(bytes, at, end, head)
    } else if marker == QUANTIZATION {
        read_steps(bytes, at, end, head)
    } else if marker == BASELINE || marker == EXTENDED || marker == PROGRESSIVE {
        if head.frame.is_some() || end - at < 6 || end - at != 6 + 3 * bytes[at + 5] as usize {
            false
        } else {
            head.frame = Some(at);
            head.progressive = marker == PROGRESSIVE;
            true
        }
    } else if marker == INTERVAL {
        if end - at != 2 {
            false
        } else {
            head.restart = read_word(bytes, at);
            true
        }
    } else if marker == FIRST_APPLICATION && end - at == 4 {
        false
    } else {
        head.colored = head.colored || (marker == COLOR_APPLICATION && head.frame.is_some());
        true
    }
}

fn read_head(bytes: &[u8]) -> (r: Option<(Head, usize)>)
    requires
        bytes@.len() >= 2,
    ensures
        match r {
            Some((head, scan)) => {
                &&& head_of(bytes@, 2, empty_head()) == Some((head@, scan as int))
                &&& head.fits(bytes@)
                &&& scan + 2 <= scan + word(bytes@, scan as int) <= bytes@.len()
            },
            None => head_of(bytes@, 2, empty_head()) is None,
        },
{
    let mut head = Head::new();
    let mut at: usize = 2;
    loop
        invariant
            at <= bytes@.len(),
            head.fits(bytes@),
            head_of(bytes@, at as int, head@) == head_of(bytes@, 2, empty_head()),
        decreases bytes@.len() - at,
    {
        if bytes.len() - at < 4 || bytes[at] != 0xff || bytes[at + 1] == 0 {
            return None;
        }
        if bytes[at + 1] == 0xff {
            at += 1;
        } else {
            let n = read_word(bytes, at + 2) as usize;
            if n < 2 || n > bytes.len() - at - 2 {
                return None;
            }
            if bytes[at + 1] == SCAN {
                return Some((head, at + 2));
            }
            if !read_segment(bytes, bytes[at + 1], at + 4, at + 2 + n, &mut head) {
                return None;
            }
            at = at + 2 + n;
        }
    }
}

fn is_single(bytes: &[u8], frame: usize, i: usize) -> (b: bool)
    requires
        frame + 6 + 3 * (i + 1) <= bytes.len(),
    ensures
        b == single(bytes@, frame as int, i as int),
{
    bytes[frame + 7 + 3 * i] == 0x11
}

fn has_usual_frame(bytes: &[u8], frame: usize, colored: bool) -> (b: bool)
    requires
        frame + 6 <= bytes.len(),
        frame + 6 + 3 * components_of(bytes@, frame as int) <= bytes.len(),
    ensures
        b == usual_frame(bytes@, frame as int, colored),
{
    let n = bytes[frame + 5];
    if n == 1 {
        !colored && (is_single(bytes, frame, 0) || (read_word(bytes, frame + 1) <= 65528
            && read_word(bytes, frame + 3) <= 65528))
    } else if n == 3 {
        let s = bytes[frame + 7];
        1 <= s / 16 && s / 16 <= 2 && 1 <= s % 16 && s % 16 <= 2 && is_single(bytes, frame, 1)
            && is_single(bytes, frame, 2)
    } else {
        n == 4 && is_single(bytes, frame, 0) && is_single(bytes, frame, 1) && is_single(
            bytes,
            frame,
            2,
        ) && is_single(bytes, frame, 3)
    }
}

impl Head {
    fn channel(&self, bytes: &[u8], frame: usize, scan: usize, i: usize) -> (r: Option<Channel>)
        requires
            self.fits(bytes@),
            frame + 9 + 3 * i <= bytes.len(),
            scan + 5 + 2 * i <= bytes.len(),
        ensures
            r == channel(bytes@, self@, frame as int, scan as int, i as int),
    {
        let codes = bytes[scan + 4 + 2 * i] as usize;
        let quantization = bytes[frame + 8 + 3 * i] as usize;
        if bytes[scan + 3 + 2 * i] != bytes[frame + 6 + 3 * i] || codes / 16 >= 4 || codes % 16
            >= 4 || quantization >= 4 {
            return None;
        }
        match (self.tables[codes / 16], self.tables[16 + codes % 16], self.steps[quantization]) {
            (Some(levels), Some(coefficients), Some(step)) => Some(
                Channel { levels, coefficients, step },
            ),
            _ => None,
        }
    }

    fn plan(&self, bytes: &[u8], frame: usize, scan: usize) -> (r: Option<ScanPlan>)
        requires
            self.fits(bytes@),
            self.frame == Some(frame),
            usual_frame(bytes@, frame as int, self.colored),
            scan + 2 <= scan + word(bytes@, scan as int) <= bytes.len(),
        ensures
            match r {
                Some(plan) => {
                    &&& plan.wf()
                    &&& plan.blocks <= 4
                    &&& plan.units <= 0x1_0000_0000
                    &&& scan_of(bytes@, self@, frame as int, scan as int) == Some(plan@)
                },
                None => scan_of(bytes@, self@, frame as int, scan as int) is None,
            },
    {
        let n = bytes[frame + 5] as usize;
        if read_word(bytes, scan) as usize != 6 + 2 * n || bytes[scan + 2] as usize != n {
            return None;
        }
        let mut channels: Vec<Channel> = Vec::new();
        let mut i: usize = 0;
        while i < n
            invariant
                i <= n <= 4,
                n == components_of(bytes@, frame as int),
                self.fits(bytes@),
                frame + 6 + 3 * n <= bytes.len(),
                scan + 6 + 2 * n <= bytes.len(),
                channels@.len() == i,
                forall|j: int|
                    0 <= j < i ==> #[trigger] channel(
                        bytes@,
                        self@,
                        frame as int,
                        scan as int,
                        j,
                    ) == Some(channels@[j]),
            decreases n - i,
        {
            match self.channel(bytes, frame, scan, i) {
                None => {
                    return None;
                },
                Some(c) => {
                    channels.push(c);
                },
            }
            i += 1;
        }
        let s = bytes[frame + 7];
        let (h, v): (u64, u64) = if n == 1 {
            (1, 1)
        } else {
            (s as u64 / 16, s as u64 % 16)
        };
        let width = read_word(bytes, frame + 3) as u64;
        let height = read_word(bytes, frame + 1) as u64;
        let columns = (width + 8 * h - 1) / (8 * h);
        let rows = (height + 8 * v - 1) / (8 * v);
        proof {
            assert(1 <= h * v <= 4) by (nonlinear_arith)
                requires
                    1 <= h <= 2,
                    1 <= v <= 2,
            ;
            assert(columns <= 65536 && rows <= 65536) by (nonlinear_arith)
                requires
                    columns == (width + 8 * h - 1) / (8 * h),
                    rows == (height + 8 * v - 1) / (8 * v),
                    width <= 65535,
                    height <= 65535,
                    1 <= h <= 2,
                    1 <= v <= 2,
            ;
            assert(columns * rows <= 65536 * 65536) by (nonlinear_arith)
                requires
                    columns <= 65536,
                    rows <= 65536,
            ;
        }
        let blocks = (h * v) as u8;
        let plan = ScanPlan { channels, blocks, restart: self.restart, units: columns * rows };
        proof {
            assert(plan@.channels =~= scan_of(
                bytes@,
                self@,
                frame as int,
                scan as int,
            )->0.channels);
        }
        Some(plan)
    }
}

/// Whether the file is no JPEG file, or one that can be decoded, whatever comes of it.
pub fn is_sound_jpeg(bytes: &[u8]) -> (b: bool)
    ensures
        b == jpeg_sound(bytes@),
{
    if bytes.len() < 2 || bytes[0] != 0xff || bytes[1] != 0xd8 {
        return true;
    }
    if bytes.len() as u64 > 0xffff_ffff {
        return false;
    }
    let (head, scan) = match read_head(bytes) {
        None => {
            return false;
        },
        Some(found) => found,
    };
    let frame = match head.frame {
        None => {
            return false;
        },
        Some(frame) => frame,
    };
    if !has_usual_frame(bytes, frame, head.colored) {
        return false;
    }
    if head.progressive {
        return true;
    }
    match head.plan(bytes, frame, scan) {
        None => false,
        Some(plan) => {
            let at = scan + read_word(bytes, scan) as usize;
            has_sound_scan(bytes, &plan, at) || (is_small_scan(&plan) && is_alone(bytes, at))
        },
    }
}

/// Two bytes make a number, the upper one first; the factors of a component are the halves of one
/// byte, that across above.
pub proof fn numbers_begin_with_their_upper_part(bytes: Seq<u8>, at: int, s: u8)
    ensures
        word(bytes, at) / 256 == bytes[at],
        word(bytes, at) % 256 == bytes[at + 1],
        16 * across(s) + down(s) == s,
        0 <= down(s) < 16,
{
}

/// As many units lie along a side as are needed to cover it, and one fewer would not cover it.
pub proof fn units_cover_the_side(side: int, blocks: int)
    requires
        side > 0,
        blocks > 0,
    ensures
        units_along(side, blocks) * (8 * blocks) >= side,
        (units_along(side, blocks) - 1) * (8 * blocks) < side,
{
    let b = 8 * blocks;
    let n = side + b - 1;
    vstd::arithmetic::div_mod::lemma_fundamental_div_mod(n, b);
    let q = n / b;
    assert(q * b >= side && (q - 1) * b < side) by (nonlinear_arith)
        requires
            n == side + b - 1,
            n == b * q + n % b,
            0 <= n % b < b,
            b > 0,
    ;
}

/// The codes of two ranges of lengths are those of the whole.
pub proof fn code_counts_add_up(bytes: Seq<u8>, at: int, n: nat, m: nat)
    ensures
        total(bytes, at, 0) == 0,
        total(bytes, at, n + m) == total(bytes, at, n) + total(bytes, at + n, m),
        total(bytes, at, 1) == bytes[at],
    decreases m,
{
    reveal_with_fuel(total, 2);
    if m > 0 {
        code_counts_add_up(bytes, at, n, (m - 1) as nat);
    }
}

/// What does not begin like a JPEG file is not looked at.
pub proof fn other_files_are_sound(bytes: Seq<u8>)
    ensures
        bytes.len() < 2 || bytes[0] != 0xff || bytes[1] != 0xd8 ==> jpeg_sound(bytes),
        jpeg_sound(bytes) && bytes.len() >= 2 && bytes[0] == 0xff && bytes[1] == 0xd8
            ==> head_of(bytes, 2, empty_head()) is Some && (head_of(
            bytes,
            2,
            empty_head(),
        )->0).0.frame is Some,
{
}

/// Segments change only what they are about: a segment of codes only the tables, one of steps only
/// the steps, a frame header only the frame, and a second frame header is refused.
pub proof fn segments_change_what_they_are_about(
    bytes: Seq<u8>,
    marker: u8,
    at: int,
    end: int,
    head: JpegHead,
)
    ensures
        with_segment(bytes, marker, at, end, head) matches Some(next) ==> {
            &&& marker != CODES ==> next.tables == head.tables
            &&& marker != QUANTIZATION ==> next.steps == head.steps
            &&& marker != INTERVAL ==> next.restart == head.restart
            &&& marker == INTERVAL ==> next.restart == bytes[at] * 256 + bytes[at + 1]
            &&& marker != BASELINE && marker != EXTENDED && marker != PROGRESSIVE ==> next.frame
                == head.frame && next.progressive == head.progressive
            &&& marker == BASELINE || marker == EXTENDED || marker == PROGRESSIVE ==> next.frame
                == Some(at) && (next.progressive <==> marker == PROGRESSIVE)
        },
        head.frame is Some && (marker == BASELINE || marker == EXTENDED || marker == PROGRESSIVE)
            ==> with_segment(bytes, marker, at, end, head) is None,
{
    lemma_tables_only(bytes, at, end, head);
    lemma_steps_only(bytes, at, end, head);
}

proof fn lemma_tables_only(bytes: Seq<u8>, at: int, end: int, head: JpegHead)
    ensures
        with_tables(bytes, at, end, head) matches Some(next) ==> next.steps == head.steps
            && next.frame == head.frame && next.progressive == head.progressive && next.restart
            == head.restart && next.colored == head.colored,
    decreases end - at,
{
    if at != end && at + 17 <= end {
        let id = bytes[at] as int;
        let next = at + 17 + total(bytes, at + 1, 16);
        if !(id >= 32 || id % 16 >= 4 || total(bytes, at + 1, 16) > 256 || next > end || next
            <= at) {
            lemma_tables_only(
                bytes,
                next,
                end,
                JpegHead { tables: head.tables.update(id, Some(at + 1)), ..head },
            );
        }
    }
}

proof fn lemma_steps_only(bytes: Seq<u8>, at: int, end: int, head: JpegHead)
    ensures
        with_steps(bytes, at, end, head) matches Some(next) ==> next.tables == head.tables
            && next.frame == head.frame && next.progressive == head.progressive && next.restart
            == head.restart && next.colored == head.colored,
    decreases end - at,
{
    if at < end {
        let id = bytes[at] as int;
        let next = if id < 16 {
            at + 65
        } else {
            at + 129
        };
        if !(id >= 32 || id % 16 >= 4 || next > end) {
            let step = if id < 16 {
                bytes[at + 1] as int
            } else {
                word(bytes, at + 1)
            };
            lemma_steps_only(
                bytes,
                next,
                end,
                JpegHead { steps: head.steps.update(id % 16, Some(step)), ..head },
            );
        }
    }
}

/// A scan has a channel for every component, with the tables that it names for it; its units cover
/// the picture, and a unit has as many blocks of the first channel as its factors say, a single one
/// where there is one component.
pub proof fn scans_cover_the_picture(
    bytes: Seq<u8>,
    head: JpegHead,
    frame: int,
    scan: int,
    i: int,
)
    requires
        scan_of(bytes, head, frame, scan) is Some,
    ensures
        ({
            let s = scan_of(bytes, head, frame, scan)->0;
            let n = bytes[frame + 5] as int;
            let height = bytes[frame + 1] * 256 + bytes[frame + 2];
            let width = bytes[frame + 3] * 256 + bytes[frame + 4];
            let across = bytes[frame + 7] as int / 16;
            let down = bytes[frame + 7] as int % 16;
            &&& s.channels.len() == n
            &&& bytes[scan + 2] == n
            &&& s.restart == head.restart
            &&& n == 1 ==> s.blocks == 1 && s.units == units_along(width, 1) * units_along(
                height,
                1,
            )
            &&& n != 1 ==> s.blocks == across * down && s.units == units_along(width, across)
                * units_along(height, down)
            &&& 0 <= i < n ==> bytes[scan + 3 + 2 * i] == bytes[frame + 6 + 3 * i]
            &&& 0 <= i < n ==> head.tables[bytes[scan + 4 + 2 * i] as int / 16] is Some
                && head.tables[16 + bytes[scan + 4 + 2 * i] as int % 16] is Some
                && head.steps[bytes[frame + 8 + 3 * i] as int] is Some
        }),
{
    let s = scan_of(bytes, head, frame, scan)->0;
    let width = bytes[frame + 3] * 256 + bytes[frame + 4];
    let height = bytes[frame + 1] * 256 + bytes[frame + 2];
    assert(frame + 7 + 3 * 0 == frame + 7);
    assert(sampling(bytes, frame, 0) == bytes[frame + 7]);
    assert(word(bytes, frame + 3) == width);
    assert(word(bytes, frame + 1) == height);
    let (h, v) = unit_size(bytes, frame);
    assert(s.blocks == h * v);
    assert(s.units == units_along(width, h) * units_along(height, v));
    assert(components_of(bytes, frame) == 1 ==> h * v == 1) by (nonlinear_arith)
        requires
            components_of(bytes, frame) == 1 ==> h == 1 && v == 1,
    ;
    if 0 <= i < components_of(bytes, frame) {
        assert(channel(bytes, head, frame, scan, i) is Some);
    }
}

/// Frames are taken with one component, with three of which only the first may have factors up to
/// two, or with four without any.
pub proof fn usual_frames_have_one_three_or_four_components(
    bytes: Seq<u8>,
    frame: int,
    colored: bool,
)
    ensures
        usual_frame(bytes, frame, colored) ==> bytes[frame + 5] == 1 || bytes[frame + 5] == 3
            || bytes[frame + 5] == 4,
        usual_frame(bytes, frame, colored) && bytes[frame + 5] == 1 ==> !colored,
        bytes[frame + 5] == 1 && !colored && bytes[frame + 7] == 0x11 ==> usual_frame(
            bytes,
            frame,
            colored,
        ),
        bytes[frame + 5] == 3 ==> (usual_frame(bytes, frame, colored) <==> (bytes[frame + 7] == 0x11
            || bytes[frame + 7] == 0x12 || bytes[frame + 7] == 0x21 || bytes[frame + 7] == 0x22)
            && bytes[frame + 10] == 0x11 && bytes[frame + 13] == 0x11),
        bytes[frame + 5] == 4 ==> (usual_frame(bytes, frame, colored) <==> bytes[frame + 7] == 0x11
            && bytes[frame + 10] == 0x11 && bytes[frame + 13] == 0x11 && bytes[frame + 16] == 0x11),
{
}

} // verus!
