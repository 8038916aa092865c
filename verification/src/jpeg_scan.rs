//! How the coded blocks of a sequential JPEG scan are walked, and the levels that they give.
//!
//! A block begins with the difference of its level to that of the block before it, and goes on
//! with coefficients that matter here only for how many bits they take. Walking all blocks of a
//! scan tells whether each level, multiplied by the step of its component, is a number that
//! thirty-two bits hold.
use vstd::prelude::*;

verus! {

/// The first of the eight restart markers.
pub const FIRST_RESTART: u8 = 0xd0;

/// The last of the eight restart markers.
pub const LAST_RESTART: u8 = 0xd7;

/// The marker of the end of the file.
pub const END: u8 = 0xd9;

/// The marker of a scan.
pub const SCAN: u8 = 0xda;

/// A place among the bits of a file: the next bit of the byte at `at`, from the highest.
pub struct BitPlace {
    pub at: int,
    pub bit: int,
}

/// One component of a scan: the places of its two code tables, and the step of its level.
#[derive(Clone, Copy, Debug, PartialEq, Eq)]
pub struct Channel {
    pub levels: usize,
    pub coefficients: usize,
    pub step: u16,
}

/// A scan: its components, how many blocks the first has in a unit (the others have one), the
/// units between restarts (zero where there are none), and the units in all.
pub struct Scan {
    pub channels: Seq<Channel>,
    pub blocks: int,
    pub restart: int,
    pub units: int,
}

/// A bit of a byte, counted from the highest.
pub open spec fn bit_of(byte: u8, i: int) -> u8 {
    (byte >> ((7 - i) as u8)) & 1
}

/// The place is within coded data: a byte of all ones there is followed by a zero, which is no
/// data, or else it begins a marker.
pub open spec fn in_data(bytes: Seq<u8>, at: int) -> bool {
    0 <= at < bytes.len() && (bytes[at] == 0xff ==> at + 1 < bytes.len() && bytes[at + 1] == 0)
}

/// The place of the byte behind one of coded data.
pub open spec fn next_byte(bytes: Seq<u8>, at: int) -> int {
    if bytes[at] == 0xff {
        at + 2
    } else {
        at + 1
    }
}

/// The next bit, and the place behind it.
pub open spec fn next_bit(bytes: Seq<u8>, p: BitPlace) -> Option<(u8, BitPlace)> {
    if !in_data(bytes, p.at) {
        None
    } else if p.bit < 7 {
        Some((bit_of(bytes[p.at], p.bit), BitPlace { at: p.at, bit: p.bit + 1 }))
    } else {
        Some((bit_of(bytes[p.at], p.bit), BitPlace { at: next_byte(bytes, p.at), bit: 0 }))
    }
}

/// The value of the next code, and the place behind it. The bits of `code`, `length` of them, were
/// read before and are no code; `first` is the least number of so many bits that is none, and
/// `index` counts the codes of up to so many bits. A table has the number of codes of each of
/// sixteen lengths, and then the values.
pub open spec fn next_value(
    bytes: Seq<u8>,
    table: int,
    p: BitPlace,
    length: int,
    code: int,
    first: int,
    index: int,
) -> Option<(u8, BitPlace)>
    decreases 16 - length,
{
    if length >= 16 || table + length >= bytes.len() {
        None
    } else {
        match next_bit(bytes, p) {
            None => None,
            Some((bit, next)) => {
                let longer = 2 * code + bit;
                let least = 2 * first;
                let count = bytes[table + length] as int;
                if longer < least + count {
                    let at = table + 16 + index + (longer - least);
                    if at >= bytes.len() {
                        None
                    } else {
                        Some((bytes[at], next))
                    }
                } else {
                    next_value(bytes, table, next, length + 1, longer, least + count, index + count)
                }
            },
        }
    }
}

/// The place behind `n` bits.
pub open spec fn behind_bits(bytes: Seq<u8>, p: BitPlace, n: nat) -> Option<BitPlace>
    decreases n,
{
    if n == 0 {
        Some(p)
    } else {
        match next_bit(bytes, p) {
            None => None,
            Some((_, next)) => behind_bits(bytes, next, (n - 1) as nat),
        }
    }
}

/// The number that `n` bits make, where a bit counts if it equals `lead`, behind a number made of
/// the bits before them; and the place behind them.
pub open spec fn magnitude(bytes: Seq<u8>, p: BitPlace, n: nat, lead: u8, made: int) -> Option<
    (int, BitPlace),
>
    decreases n,
{
    if n == 0 {
        Some((made, p))
    } else {
        match next_bit(bytes, p) {
            None => None,
            Some((bit, next)) => magnitude(
                bytes,
                next,
                (n - 1) as nat,
                lead,
                2 * made + if bit == lead {
                    1int
                } else {
                    0
                },
            ),
        }
    }
}

/// The difference in `n` bits: positive where the first is set, and otherwise what the inverted
/// bits make below zero.
pub open spec fn difference(bytes: Seq<u8>, p: BitPlace, n: nat) -> Option<(int, BitPlace)> {
    if n == 0 {
        Some((0, p))
    } else {
        match next_bit(bytes, p) {
            None => None,
            Some((lead, _)) => match magnitude(bytes, p, n, lead, 0) {
                None => None,
                Some((made, next)) => if lead == 1 {
                    Some((made, next))
                } else {
                    Some((-made, next))
                },
            },
        }
    }
}

/// The place behind the coefficients of a block, of which `k` are passed over.
pub open spec fn behind_coefficients(bytes: Seq<u8>, table: int, p: BitPlace, k: int) -> Option<
    BitPlace,
>
    decreases
            if k < 64 {
                64 - k
            } else {
                0
            },
{
    if k >= 64 {
        Some(p)
    } else {
        match next_value(bytes, table, p, 0, 0, 0, 0) {
            None => None,
            Some((value, next)) => {
                let run = value as int / 16;
                let size = value as int % 16;
                if size == 0 && run != 15 {
                    Some(next)
                } else {
                    match behind_bits(bytes, next, size as nat) {
                        None => None,
                        Some(last) => behind_coefficients(bytes, table, last, k + run + 1),
                    }
                }
            },
        }
    }
}

/// The number is one of thirty-two bits.
pub open spec fn fits_word(n: int) -> bool {
    -0x8000_0000 <= n <= 0x7fff_ffff
}

/// The level of the next block, and the place behind it. `None` where the data break off or the
/// level, or what it is multiplied to, is too large.
pub open spec fn behind_block(bytes: Seq<u8>, c: Channel, p: BitPlace, level: int) -> Option<
    (int, BitPlace),
> {
    match next_value(bytes, c.levels as int, p, 0, 0, 0, 0) {
        None => None,
        Some((size, next)) => if size > 15 {
            None
        } else {
            match difference(bytes, next, size as nat) {
                None => None,
                Some((d, last)) => if !fits_word(level + d) || !fits_word((level + d) * c.step) {
                    None
                } else {
                    match behind_coefficients(bytes, c.coefficients as int, last, 1) {
                        None => None,
                        Some(end) => Some((level + d, end)),
                    }
                },
            }
        },
    }
}

/// The component of a block of a unit.
pub open spec fn channel_of(scan: Scan, block: int) -> int {
    if block < scan.blocks {
        0
    } else {
        block - scan.blocks + 1
    }
}

/// The levels behind the blocks of a unit from `block` on, and the place there.
pub open spec fn behind_unit(
    bytes: Seq<u8>,
    scan: Scan,
    p: BitPlace,
    levels: Seq<int>,
    block: int,
) -> Option<(Seq<int>, BitPlace)>
    decreases scan.blocks + scan.channels.len() - 1 - block,
{
    if block >= scan.blocks + scan.channels.len() - 1 {
        Some((levels, p))
    } else {
        let c = channel_of(scan, block);
        match behind_block(bytes, scan.channels[c], p, levels[c]) {
            None => None,
            Some((level, next)) => behind_unit(
                bytes,
                scan,
                next,
                levels.update(c, level),
                block + 1,
            ),
        }
    }
}

/// The place of the first byte that is not begun.
pub open spec fn whole_byte(bytes: Seq<u8>, p: BitPlace) -> int {
    if p.bit == 0 {
        p.at
    } else {
        next_byte(bytes, p.at)
    }
}

/// A restart marker stands at the place.
pub open spec fn is_restart(bytes: Seq<u8>, at: int) -> bool {
    at + 2 <= bytes.len() && bytes[at] == 0xff && FIRST_RESTART <= bytes[at + 1] <= LAST_RESTART
}

/// The levels where nothing has been read.
pub open spec fn no_levels(scan: Scan) -> Seq<int> {
    Seq::new(scan.channels.len(), |i: int| 0)
}

/// The place behind `units` units, of which `todo` come before the next restart.
pub open spec fn behind_units(
    bytes: Seq<u8>,
    scan: Scan,
    p: BitPlace,
    levels: Seq<int>,
    units: nat,
    todo: int,
) -> Option<BitPlace>
    decreases units,
{
    if units == 0 {
        Some(p)
    } else {
        match behind_unit(bytes, scan, p, levels, 0) {
            None => None,
            Some((reached, next)) => if scan.restart > 0 && todo == 1 && units > 1 {
                let at = whole_byte(bytes, next);
                if is_restart(bytes, at) {
                    behind_units(
                        bytes,
                        scan,
                        BitPlace { at: at + 2, bit: 0 },
                        no_levels(scan),
                        (units - 1) as nat,
                        scan.restart,
                    )
                } else {
                    None
                }
            } else {
                behind_units(
                    bytes,
                    scan,
                    next,
                    reached,
                    (units - 1) as nat,
                    if scan.restart > 0 {
                        todo - 1
                    } else {
                        0
                    },
                )
            },
        }
    }
}

/// The next marker is that of the end of the file, if there is one.
pub open spec fn ends(bytes: Seq<u8>, at: int) -> bool
    decreases bytes.len() - at,
{
    if at + 1 >= bytes.len() {
        true
    } else if bytes[at] == 0xff && bytes[at + 1] != 0 && bytes[at + 1] != 0xff {
        bytes[at + 1] == END
    } else {
        ends(bytes, at + 1)
    }
}

/// All blocks of the scan that begins at the place are there, no level is too large, and nothing
/// but the end of the file follows.
pub open spec fn scan_sound(bytes: Seq<u8>, scan: Scan, at: int) -> bool {
    match behind_units(
        bytes,
        scan,
        BitPlace { at, bit: 0 },
        no_levels(scan),
        scan.units as nat,
        scan.restart,
    ) {
        None => false,
        Some(p) => ends(bytes, whole_byte(bytes, p)),
    }
}

/// The largest number of `n` bits.
spec fn ones(n: nat) -> int
    decreases n,
{
    if n == 0 {
        0
    } else {
        2 * ones((n - 1) as nat) + 1
    }
}

proof fn ones_fit(n: nat)
    requires
        n <= 16,
    ensures
        0 <= ones(n) <= 0xffff,
{
    reveal_with_fuel(ones, 17);
}

/// Whatever the data are, the levels of so many blocks are not too large: a difference has up to
/// fifteen bits.
pub open spec fn always_fits(c: Channel, blocks: int) -> bool {
    blocks * 0x7fff * c.step <= 0x7fff_ffff
}

/// Whatever the data of the scan are, no level is too large.
pub open spec fn scan_small(scan: Scan) -> bool {
    forall|i: int|
        0 <= i < scan.channels.len() ==> always_fits(
            #[trigger] scan.channels[i],
            if i == 0 {
                scan.units * scan.blocks
            } else {
                scan.units
            },
        )
}

/// No other scan begins from the place on.
pub open spec fn scan_alone(bytes: Seq<u8>, at: int) -> bool {
    forall|i: int|
        at <= i && i + 1 < bytes.len() ==> !(#[trigger] bytes[i] == 0xff && bytes[i + 1] == SCAN)
}

/// A place among the bits of a file.
#[derive(Clone, Copy)]
struct Cursor {
    at: usize,
    bit: u8,
}

impl View for Cursor {
    type V = BitPlace;

    closed spec fn view(&self) -> BitPlace {
        BitPlace { at: self.at as int, bit: self.bit as int }
    }
}

impl Cursor {
    spec fn fits(self, bytes: Seq<u8>) -> bool {
        self.at <= bytes.len() && self.bit < 8 && (self.bit > 0 ==> in_data(bytes, self.at as int))
    }

    fn take_bit(&mut self, bytes: &[u8]) -> (r: Option<u8>)
        requires
            old(self).fits(bytes@),
        ensures
            final(self).fits(bytes@),
            match r {
                Some(bit) => bit <= 1 && next_bit(bytes@, old(self)@) == Some((bit, final(self)@)),
                None => next_bit(bytes@, old(self)@) is None,
            },
    {
        if self.at >= bytes.len() {
            return None;
        }
        let byte = bytes[self.at];
        if byte == 0xff && (self.at + 1 >= bytes.len() || bytes[self.at + 1] != 0) {
            return None;
        }
        let shift: u8 = 7 - self.bit;
        let bit = (byte >> shift) & 1;
        assert((byte >> shift) & 1 <= 1) by (bit_vector);
        if self.bit < 7 {
            self.bit = self.bit + 1;
        } else {
            self.at = if byte == 0xff {
                self.at + 2
            } else {
                self.at + 1
            };
            self.bit = 0;
        }
        Some(bit)
    }

    fn take_value(&mut self, bytes: &[u8], table: usize) -> (r: Option<u8>)
        requires
            old(self).fits(bytes@),
        ensures
            final(self).fits(bytes@),
            match r {
                Some(value) => next_value(bytes@, table as int, old(self)@, 0, 0, 0, 0) == Some(
                    (value, final(self)@),
                ),
                None => next_value(bytes@, table as int, old(self)@, 0, 0, 0, 0) is None,
            },
    {
        let mut length: usize = 0;
        let mut code: u64 = 0;
        let mut first: u64 = 0;
        let mut index: usize = 0;
        if table >= bytes.len() {
            return None;
        }
        let rest = bytes.len() - table;
        while length < 16
            invariant
                self.fits(bytes@),
                rest == bytes.len() - table,
                length <= 16,
                first <= code <= ones(length as nat),
                index <= length * 255,
                next_value(
                    bytes@,
                    table as int,
                    self@,
                    length as int,
                    code as int,
                    first as int,
                    index as int,
                ) == next_value(bytes@, table as int, old(self)@, 0, 0, 0, 0),
            decreases 16 - length,
        {
            if length >= rest {
                return None;
            }
            match self.take_bit(bytes) {
                None => {
                    return None;
                },
                Some(bit) => {
                    proof {
                        ones_fit(length as nat);
                    }
                    let longer = 2 * code + bit as u64;
                    let least = 2 * first;
                    let count = bytes[table + length] as u64;
                    if longer < least + count {
                        let at = 16 + index + (longer - least) as usize;
                        if at >= rest {
                            return None;
                        }
                        return Some(bytes[table + at]);
                    }
                    code = longer;
                    first = least + count;
                    index = index + count as usize;
                    length += 1;
                },
            }
        }
        None
    }

    fn skip_bits(&mut self, bytes: &[u8], n: u8) -> (b: bool)
        requires
            old(self).fits(bytes@),
        ensures
            final(self).fits(bytes@),
            match behind_bits(bytes@, old(self)@, n as nat) {
                Some(p) => b && final(self)@ == p,
                None => !b,
            },
    {
        let mut left = n;
        while left > 0
            invariant
                self.fits(bytes@),
                behind_bits(bytes@, self@, left as nat) == behind_bits(
                    bytes@,
                    old(self)@,
                    n as nat,
                ),
            decreases left,
        {
            if self.take_bit(bytes).is_none() {
                return false;
            }
            left -= 1;
        }
        true
    }

    fn take_difference(&mut self, bytes: &[u8], n: u8) -> (r: Option<i64>)
        requires
            old(self).fits(bytes@),
            n <= 15,
        ensures
            final(self).fits(bytes@),
            match r {
                Some(d) => -0xffff <= d <= 0xffff && difference(bytes@, old(self)@, n as nat)
                    == Some((d as int, final(self)@)),
                None => difference(bytes@, old(self)@, n as nat) is None,
            },
    {
        if n == 0 {
            return Some(0);
        }
        let mut ahead = *self;
        let lead = match ahead.take_bit(bytes) {
            None => {
                return None;
            },
            Some(lead) => lead,
        };
        let mut made: i64 = 0;
        let mut left = n;
        while left > 0
            invariant
                self.fits(bytes@),
                left <= n <= 15,
                0 <= made <= ones((n - left) as nat),
                magnitude(bytes@, self@, left as nat, lead, made as int) == magnitude(
                    bytes@,
                    old(self)@,
                    n as nat,
                    lead,
                    0,
                ),
                n > 0,
                next_bit(bytes@, old(self)@) == Some((lead, ahead@)),
            decreases left,
        {
            match self.take_bit(bytes) {
                None => {
                    return None;
                },
                Some(bit) => {
                    proof {
                        ones_fit((n - left) as nat);
                    }
                    made = if bit == lead {
                        2 * made + 1
                    } else {
                        2 * made
                    };
                    left -= 1;
                },
            }
        }
        proof {
            ones_fit(n as nat);
        }
        if lead == 1 {
            Some(made)
        } else {
            Some(-made)
        }
    }

    fn skip_coefficients(&mut self, bytes: &[u8], table: usize) -> (b: bool)
        requires
            old(self).fits(bytes@),
        ensures
            final(self).fits(bytes@),
            match behind_coefficients(bytes@, table as int, old(self)@, 1) {
                Some(p) => b && final(self)@ == p,
                None => !b,
            },
    {
        let mut k: u8 = 1;
        while k < 64
            invariant
                self.fits(bytes@),
                k <= 80,
                behind_coefficients(bytes@, table as int, self@, k as int) == behind_coefficients(
                    bytes@,
                    table as int,
                    old(self)@,
                    1,
                ),
            decreases 80 - k,
        {
            match self.take_value(bytes, table) {
                None => {
                    return false;
                },
                Some(value) => {
                    if value % 16 == 0 && value / 16 != 15 {
                        return true;
                    }
                    if !self.skip_bits(bytes, value % 16) {
                        return false;
                    }
                    k = k + value / 16 + 1;
                },
            }
        }
        true
    }

    fn take_block(&mut self, bytes: &[u8], c: Channel, level: i64) -> (r: Option<i64>)
        requires
            old(self).fits(bytes@),
            fits_word(level as int),
        ensures
            final(self).fits(bytes@),
            match r {
                Some(reached) => fits_word(reached as int) && behind_block(
                    bytes@,
                    c,
                    old(self)@,
                    level as int,
                ) == Some((reached as int, final(self)@)),
                None => behind_block(bytes@, c, old(self)@, level as int) is None,
            },
    {
        let size = match self.take_value(bytes, c.levels) {
            None => {
                return None;
            },
            Some(size) => size,
        };
        if size > 15 {
            return None;
        }
        let reached = match self.take_difference(bytes, size) {
            None => {
                return None;
            },
            Some(d) => level + d,
        };
        if reached < -0x8000_0000 || reached > 0x7fff_ffff {
            return None;
        }
        proof {
            assert(-0x8000_0000 * 0xffff <= reached * c.step <= 0x7fff_ffff * 0xffff)
                by (nonlinear_arith)
                requires
                    -0x8000_0000 <= reached <= 0x7fff_ffff,
                    0 <= c.step <= 0xffff,
            ;
        }
        let product = reached * c.step as i64;
        if product < -0x8000_0000 || product > 0x7fff_ffff {
            return None;
        }
        if self.skip_coefficients(bytes, c.coefficients) {
            Some(reached)
        } else {
            None
        }
    }
}

/// A scan as it is walked.
pub struct ScanPlan {
    pub channels: Vec<Channel>,
    pub blocks: u8,
    pub restart: u16,
    pub units: u64,
}

impl View for ScanPlan {
    type V = Scan;

    open spec fn view(&self) -> Scan {
        Scan {
            channels: self.channels@,
            blocks: self.blocks as int,
            restart: self.restart as int,
            units: self.units as int,
        }
    }
}

impl ScanPlan {
    /// There are up to four components, and each has a block in a unit.
    pub open spec fn wf(self) -> bool {
        0 < self.channels@.len() <= 4 && self.blocks > 0
    }
}

/// The levels as numbers.
spec fn numbers(levels: Seq<i64>) -> Seq<int> {
    levels.map_values(|level: i64| level as int)
}

spec fn all_fit(levels: Seq<i64>) -> bool {
    forall|i: int| 0 <= i < levels.len() ==> fits_word((#[trigger] levels[i]) as int)
}

fn zero_levels(plan: &ScanPlan) -> (levels: Vec<i64>)
    ensures
        numbers(levels@) == no_levels(plan@),
        all_fit(levels@),
        levels@.len() == plan.channels@.len(),
{
    let mut levels: Vec<i64> = Vec::new();
    while levels.len() < plan.channels.len()
        invariant
            levels@.len() <= plan.channels@.len(),
            forall|i: int| 0 <= i < levels@.len() ==> levels@[i] == 0,
        decreases plan.channels@.len() - levels@.len(),
    {
        levels.push(0);
    }
    assert(numbers(levels@) =~= no_levels(plan@));
    levels
}

fn take_unit(bytes: &[u8], plan: &ScanPlan, cursor: &mut Cursor, levels: &mut Vec<i64>) -> (b: bool)
    requires
        old(cursor).fits(bytes@),
        old(levels)@.len() == plan.channels@.len(),
        all_fit(old(levels)@),
        plan.wf(),
    ensures
        final(cursor).fits(bytes@),
        final(levels)@.len() == plan.channels@.len(),
        all_fit(final(levels)@),
        match behind_unit(bytes@, plan@, old(cursor)@, numbers(old(levels)@), 0) {
            Some((reached, p)) => b && final(cursor)@ == p && numbers(final(levels)@) == reached,
            None => !b,
        },
{
    let blocks = plan.blocks as usize;
    let mut block: usize = 0;
    let mut c: usize = 0;
    while c < plan.channels.len()
        invariant
            cursor.fits(bytes@),
            levels@.len() == plan.channels@.len(),
            all_fit(levels@),
            plan.wf(),
            blocks == plan.blocks,
            block <= blocks + c,
            c <= plan.channels@.len(),
            c == channel_of(plan@, block as int),
            c > 0 ==> block == blocks + c - 1,
            behind_unit(bytes@, plan@, cursor@, numbers(levels@), block as int) == behind_unit(
                bytes@,
                plan@,
                old(cursor)@,
                numbers(old(levels)@),
                0,
            ),
        decreases blocks + plan.channels@.len() - block,
    {
        match cursor.take_block(bytes, plan.channels[c], levels[c]) {
            None => {
                return false;
            },
            Some(level) => {
                let ghost before = levels@;
                levels.set(c, level);
                proof {
                    assert(numbers(levels@) =~= numbers(before).update(c as int, level as int));
                }
                block += 1;
                c = if block < blocks {
                    0
                } else {
                    block - blocks + 1
                };
            },
        }
    }
    true
}

fn is_at_restart(bytes: &[u8], at: usize) -> (b: bool)
    requires
        at <= bytes@.len(),
    ensures
        b == is_restart(bytes@, at as int),
{
    bytes.len() - at >= 2 && bytes[at] == 0xff && bytes[at + 1] >= FIRST_RESTART && bytes[at + 1]
        <= LAST_RESTART
}

impl Cursor {
    fn to_whole_byte(&self, bytes: &[u8]) -> (at: usize)
        requires
            self.fits(bytes@),
        ensures
            at == whole_byte(bytes@, self@),
            at <= bytes@.len(),
    {
        if self.bit == 0 {
            self.at
        } else if bytes[self.at] == 0xff {
            self.at + 2
        } else {
            self.at + 1
        }
    }
}

fn take_units(bytes: &[u8], plan: &ScanPlan, start: usize) -> (r: Option<Cursor>)
    requires
        start <= bytes@.len(),
        plan.wf(),
    ensures
        match r {
            Some(cursor) => cursor.fits(bytes@) && behind_units(
                bytes@,
                plan@,
                (BitPlace { at: start as int, bit: 0 }),
                no_levels(plan@),
                plan.units as nat,
                plan.restart as int,
            ) == Some(cursor@),
            None => behind_units(
                bytes@,
                plan@,
                (BitPlace { at: start as int, bit: 0 }),
                no_levels(plan@),
                plan.units as nat,
                plan.restart as int,
            ) is None,
        },
{
    let mut cursor = Cursor { at: start, bit: 0 };
    let mut levels = zero_levels(plan);
    let mut left = plan.units;
    let mut todo = plan.restart;
    while left > 0
        invariant
            cursor.fits(bytes@),
            levels@.len() == plan.channels@.len(),
            all_fit(levels@),
            plan.wf(),
            todo <= plan.restart,
            plan.restart > 0 && left > 0 ==> todo > 0,
            behind_units(bytes@, plan@, cursor@, numbers(levels@), left as nat, todo as int)
                == behind_units(
                bytes@,
                plan@,
                (BitPlace { at: start as int, bit: 0 }),
                no_levels(plan@),
                plan.units as nat,
                plan.restart as int,
            ),
        decreases left,
    {
        if !take_unit(bytes, plan, &mut cursor, &mut levels) {
            return None;
        }
        if plan.restart > 0 && todo == 1 && left > 1 {
            let at = cursor.to_whole_byte(bytes);
            assert(at <= bytes.len());
            if !is_at_restart(bytes, at) {
                return None;
            }
            cursor = Cursor { at: at + 2, bit: 0 };
            levels = zero_levels(plan);
            todo = plan.restart;
        } else if plan.restart > 0 {
            todo -= 1;
        }
        left -= 1;
    }
    Some(cursor)
}

fn is_ended(bytes: &[u8], start: usize) -> (b: bool)
    requires
        start <= bytes@.len(),
    ensures
        b == ends(bytes@, start as int),
{
    let mut at = start;
    while bytes.len() - at >= 2
        invariant
            at <= bytes@.len(),
            ends(bytes@, at as int) == ends(bytes@, start as int),
        decreases bytes@.len() - at,
    {
        if bytes[at] == 0xff && bytes[at + 1] != 0 && bytes[at + 1] != 0xff {
            return bytes[at + 1] == END;
        }
        at += 1;
    }
    true
}

/// Whether all blocks of the scan are there, no level is too large, and nothing but the end of
/// the file follows.
pub fn has_sound_scan(bytes: &[u8], plan: &ScanPlan, at: usize) -> (b: bool)
    requires
        at <= bytes@.len(),
        plan.wf(),
    ensures
        b == scan_sound(bytes@, plan@, at as int),
{
    match take_units(bytes, plan, at) {
        None => false,
        Some(cursor) => is_ended(bytes, cursor.to_whole_byte(bytes)),
    }
}

/// Whether no level of the scan is too large, whatever its data are.
pub fn is_small_scan(plan: &ScanPlan) -> (b: bool)
    requires
        plan.wf(),
        plan.blocks <= 4,
        plan.units <= 0x1_0000_0000,
    ensures
        b == scan_small(plan@),
{
    let mut i: usize = 0;
    while i < plan.channels.len()
        invariant
            i <= plan.channels@.len(),
            plan.blocks <= 4,
            plan.units <= 0x1_0000_0000,
            forall|j: int|
                0 <= j < i ==> always_fits(
                    #[trigger] plan@.channels[j],
                    if j == 0 {
                        plan@.units * plan@.blocks
                    } else {
                        plan@.units
                    },
                ),
        decreases plan.channels@.len() - i,
    {
        let c = plan.channels[i];
        let blocks: u64 = if i == 0 {
            plan.blocks as u64
        } else {
            1
        };
        proof {
            assert(plan.units * blocks <= 0x4_0000_0000) by (nonlinear_arith)
                requires
                    plan.units <= 0x1_0000_0000,
                    blocks <= 4,
            ;
            let n = plan.units * blocks;
            assert(n * 0x7fff * c.step <= 0x4_0000_0000 * 0x7fff * 0xffff) by (nonlinear_arith)
                requires
                    0 <= n <= 0x4_0000_0000,
                    c.step <= 0xffff,
            ;
            assert(plan.units * 1 == plan.units) by (nonlinear_arith);
        }
        if (plan.units * blocks) as u128 * 0x7fff * c.step as u128 > 0x7fff_ffff {
            proof {
                assert(!always_fits(
                    plan@.channels[i as int],
                    if i == 0 {
                        plan@.units * plan@.blocks
                    } else {
                        plan@.units
                    },
                ));
            }
            return false;
        }
        i += 1;
    }
    true
}

/// Whether no other scan begins from the place on.
pub fn is_alone(bytes: &[u8], start: usize) -> (b: bool)
    requires
        start <= bytes@.len(),
    ensures
        b == scan_alone(bytes@, start as int),
{
    let mut at = start;
    while bytes.len() - at >= 2
        invariant
            start <= at <= bytes@.len(),
            forall|i: int|
                start <= i < at ==> i + 1 < bytes@.len() && !(#[trigger] bytes@[i] == 0xff
                    && bytes@[i + 1] == SCAN),
        decreases bytes@.len() - at,
    {
        if bytes[at] == 0xff && bytes[at + 1] == SCAN {
            return false;
        }
        at += 1;
    }
    true
}

/// The bits of a byte come from the highest to the lowest.
pub proof fn bits_come_from_the_highest(byte: u8)
    ensures
        byte == 128 * bit_of(byte, 0) + 64 * bit_of(byte, 1) + 32 * bit_of(byte, 2) + 16 * bit_of(
            byte,
            3,
        ) + 8 * bit_of(byte, 4) + 4 * bit_of(byte, 5) + 2 * bit_of(byte, 6) + bit_of(byte, 7),
{
    assert(byte == 128 * ((byte >> 7u8) & 1) + 64 * ((byte >> 6u8) & 1) + 32 * ((byte >> 5u8) & 1)
        + 16 * ((byte >> 4u8) & 1) + 8 * ((byte >> 3u8) & 1) + 4 * ((byte >> 2u8) & 1) + 2 * ((byte
        >> 1u8) & 1) + ((byte >> 0u8) & 1)) by (bit_vector);
}

/// Passing some bits and then some more is passing all of them.
pub proof fn bits_are_passed_one_by_one(bytes: Seq<u8>, p: BitPlace, n: nat, m: nat)
    ensures
        behind_bits(bytes, p, n + m) == (match behind_bits(bytes, p, n) {
            Some(q) => behind_bits(bytes, q, m),
            None => None,
        }),
        behind_bits(bytes, p, 0) == Some(p),
        behind_bits(bytes, p, 1) == (match next_bit(bytes, p) {
            Some((_, q)) => Some(q),
            None => None,
        }),
    decreases n,
{
    reveal_with_fuel(behind_bits, 2);
    if n > 0 {
        if let Some((_, q)) = next_bit(bytes, p) {
            bits_are_passed_one_by_one(bytes, q, (n - 1) as nat, m);
        }
    }
}

/// A bit that was read is followed by the next of its byte, or after the last one by the first of
/// the next byte; a byte of all ones is followed by a zero that is passed over, and where it is not
/// the data are at their end.
pub proof fn stuffed_bytes_are_passed_over(bytes: Seq<u8>, p: BitPlace)
    requires
        0 <= p.at < bytes.len(),
        0 <= p.bit < 8,
    ensures
        bytes[p.at] != 0xff && p.bit < 7 ==> next_bit(bytes, p) == Some(
            (bit_of(bytes[p.at], p.bit), BitPlace { at: p.at, bit: p.bit + 1 }),
        ),
        bytes[p.at] != 0xff && p.bit == 7 ==> next_bit(bytes, p) == Some(
            (bit_of(bytes[p.at], 7), BitPlace { at: p.at + 1, bit: 0 }),
        ),
        bytes[p.at] == 0xff && p.at + 1 < bytes.len() && bytes[p.at + 1] == 0 && p.bit == 7
            ==> next_bit(bytes, p) == Some(
            (bit_of(bytes[p.at], 7), BitPlace { at: p.at + 2, bit: 0 }),
        ),
        bytes[p.at] == 0xff && (p.at + 1 >= bytes.len() || bytes[p.at + 1] != 0) ==> next_bit(
            bytes,
            p,
        ) is None,
{
}

/// A difference of no bits is zero; one that begins with a set bit is above zero, any other below.
pub proof fn differences_take_their_sign_from_their_first_bit(
    bytes: Seq<u8>,
    p: BitPlace,
    n: nat,
)
    ensures
        difference(bytes, p, 0) == Some((0int, p)),
        n > 0 ==> (difference(bytes, p, n) matches Some((d, _)) ==> d != 0 && (d > 0 <==> (next_bit(
            bytes,
            p,
        )->0).0 == 1)),
        difference(bytes, p, n) is Some <==> behind_bits(bytes, p, n) is Some,
        difference(bytes, p, n) is Some ==> (difference(bytes, p, n)->0).1 == behind_bits(
            bytes,
            p,
            n,
        )->0,
{
    if n > 0 {
        if let Some((lead, next)) = next_bit(bytes, p) {
            lemma_magnitude_ends(bytes, p, n, lead, 0);
            lemma_magnitude_ends(bytes, next, (n - 1) as nat, lead, 1);
        }
    }
}

proof fn lemma_magnitude_ends(bytes: Seq<u8>, p: BitPlace, n: nat, lead: u8, made: int)
    requires
        made >= 0,
    ensures
        magnitude(bytes, p, n, lead, made) is Some <==> behind_bits(bytes, p, n) is Some,
        magnitude(bytes, p, n, lead, made) matches Some((d, q)) ==> d >= made && Some(q)
            == behind_bits(bytes, p, n),
    decreases n,
{
    if n > 0 {
        if let Some((bit, next)) = next_bit(bytes, p) {
            lemma_magnitude_ends(
                bytes,
                next,
                (n - 1) as nat,
                lead,
                2 * made + if bit == lead {
                    1int
                } else {
                    0
                },
            );
        }
    }
}

/// The first blocks of a unit belong to the first channel, and each further block to a channel of
/// its own, in order.
pub proof fn blocks_belong_to_their_channel(scan: Scan, block: int)
    ensures
        block < scan.blocks ==> channel_of(scan, block) == 0,
        block >= scan.blocks ==> channel_of(scan, block) == block - scan.blocks + 1,
{
}

/// After the data the first marker that is found, if any, is the end of the image.
pub proof fn images_end_with_their_marker(bytes: Seq<u8>, at: int, i: int)
    requires
        0 <= at <= i,
        i + 1 < bytes.len(),
        bytes[i] == 0xff,
        bytes[i + 1] != 0,
        bytes[i + 1] != 0xff,
        forall|j: int|
            at <= j < i ==> !(#[trigger] bytes[j] == 0xff && bytes[j + 1] != 0 && bytes[j + 1]
                != 0xff),
    ensures
        ends(bytes, at) <==> bytes[i + 1] == END,
    decreases i - at,
{
    if at < i {
        assert(!(bytes[at] == 0xff && bytes[at + 1] != 0 && bytes[at + 1] != 0xff));
        images_end_with_their_marker(bytes, at + 1, i);
    }
}

proof fn lemma_value_length(
    bytes: Seq<u8>,
    table: int,
    p: BitPlace,
    length: int,
    code: int,
    first: int,
    index: int,
) -> (n: nat)
    requires
        next_value(bytes, table, p, length, code, first, index) is Some,
        0 <= length,
    ensures
        1 <= n <= 16 - length,
        behind_bits(bytes, p, n) == Some(
            (next_value(bytes, table, p, length, code, first, index)->0).1,
        ),
    decreases 16 - length,
{
    reveal_with_fuel(behind_bits, 2);
    let (bit, next) = next_bit(bytes, p)->0;
    let longer = 2 * code + bit;
    let least = 2 * first;
    let count = bytes[table + length] as int;
    if longer < least + count {
        1
    } else {
        let n = lemma_value_length(
            bytes,
            table,
            next,
            length + 1,
            longer,
            least + count,
            index + count,
        );
        n + 1
    }
}

/// A value is read with one to sixteen bits.
pub proof fn values_have_up_to_sixteen_bits(bytes: Seq<u8>, table: int, p: BitPlace) -> (n: nat)
    requires
        next_value(bytes, table, p, 0, 0, 0, 0) is Some,
    ensures
        1 <= n <= 16,
        behind_bits(bytes, p, n) == Some((next_value(bytes, table, p, 0, 0, 0, 0)->0).1),
{
    lemma_value_length(bytes, table, p, 0, 0, 0, 0)
}

/// Where there are codes of one bit, the first bits stand for the first values of the table, in
/// order.
pub proof fn shortest_codes_stand_for_the_first_values(bytes: Seq<u8>, table: int, p: BitPlace)
    requires
        0 <= table,
        table + 18 <= bytes.len(),
        next_bit(bytes, p) is Some,
    ensures
        (next_bit(bytes, p)->0).0 < bytes[table] ==> next_value(bytes, table, p, 0, 0, 0, 0) == Some(
            (bytes[table + 16 + (next_bit(bytes, p)->0).0], (next_bit(bytes, p)->0).1),
        ) || table + 16 + (next_bit(bytes, p)->0).0 >= bytes.len(),
{
}

} // verus!
