//! Memory budgets: from the settings of the environment, else from the memory of the machine.
use crate::text::chars_of;
use vstd::prelude::*;

verus! {

/// Bytes of a mebibyte.
pub const MIB: u64 = 0x10_0000;

/// Budget where nothing better is known: two gibibytes.
pub const DEFAULT_LIMIT: u64 = 0x8000_0000;

/// White space, as Unicode has it.
pub open spec fn is_white(c: char) -> bool {
    let n = c as u32;
    ||| 0x09 <= n <= 0x0d
    ||| n == 0x20
    ||| n == 0x85
    ||| n == 0xa0
    ||| n == 0x1680
    ||| 0x2000 <= n <= 0x200a
    ||| n == 0x2028
    ||| n == 0x2029
    ||| n == 0x202f
    ||| n == 0x205f
    ||| n == 0x3000
}

fn white(c: char) -> (b: bool)
    ensures
        b == is_white(c),
{
    let n = c as u32;
    (0x09 <= n && n <= 0x0d) || n == 0x20 || n == 0x85 || n == 0xa0 || n == 0x1680 || (0x2000 <= n
        && n <= 0x200a) || n == 0x2028 || n == 0x2029 || n == 0x202f || n == 0x205f || n == 0x3000
}

/// `s[i..j]` is what is left of a text without the white space around it.
pub open spec fn is_trimmed(s: Seq<char>, i: int, j: int) -> bool {
    &&& 0 <= i <= j <= s.len()
    &&& forall|k: int| 0 <= k < i ==> is_white(#[trigger] s[k])
    &&& forall|k: int| j <= k < s.len() ==> is_white(#[trigger] s[k])
    &&& i < j ==> !is_white(s[i]) && !is_white(s[j - 1])
    &&& i == j ==> i == s.len()
}

/// A decimal digit.
pub open spec fn is_digit(c: char) -> bool {
    '0' <= c && c <= '9'
}

/// The number that some digits spell.
pub open spec fn decimal(s: Seq<char>) -> nat
    decreases s.len(),
{
    if s.len() == 0 {
        0
    } else {
        decimal(s.drop_last()) * 10 + (s.last() as nat - '0' as nat) as nat
    }
}

/// Nothing but digits.
pub open spec fn all_digits(s: Seq<char>) -> bool {
    forall|i: int| 0 <= i < s.len() ==> is_digit(#[trigger] s[i])
}

/// The text without a plus sign at its head.
pub open spec fn unsigned(s: Seq<char>) -> Seq<char> {
    if s.len() > 0 && s[0] == '+' {
        s.skip(1)
    } else {
        s
    }
}

/// The number that a text spells: digits, perhaps after a plus sign; `None` where it spells none
/// that fits.
pub open spec fn number(s: Seq<char>) -> Option<nat> {
    if unsigned(s).len() > 0 && all_digits(unsigned(s)) && decimal(unsigned(s)) <= u64::MAX {
        Some(decimal(unsigned(s)))
    } else {
        None
    }
}

/// The number of bytes that a text with a number of mebibytes stands for, `r`.
pub open spec fn stands_for(text: Seq<char>, r: Option<u64>) -> bool {
    exists|i: int, j: int| #[trigger]
        is_trimmed(text, i, j) && (match number(text.subrange(i, j)) {
            Some(n) => if n * MIB <= u64::MAX {
                r == Some((n * MIB) as u64)
            } else {
                r is None
            },
            None => r is None,
        })
}

proof fn lemma_decimal_prefix(s: Seq<char>, n: int)
    requires
        0 <= n <= s.len(),
        all_digits(s),
    ensures
        decimal(s.take(n)) <= decimal(s),
    decreases s.len(),
{
    if n < s.len() {
        assert(s.drop_last().take(n) =~= s.take(n));
        assert forall|i: int| 0 <= i < s.len() - 1 implies is_digit(
            #[trigger] s.drop_last()[i],
        ) by {
            assert(is_digit(s[i]));
        }
        lemma_decimal_prefix(s.drop_last(), n);
    } else {
        assert(s.take(n) =~= s);
    }
}

/// Reads a number of mebibytes; gives bytes. `None` where the text spells no number or more bytes
/// than can be counted.
pub fn parse_mib(text: &str) -> (r: Option<u64>)
    ensures
        stands_for(text@, r),
{
    let chars = chars_of(text);
    let mut i: usize = 0;
    while i < chars.len() && white(chars[i])
        invariant
            i <= chars@.len(),
            forall|k: int| 0 <= k < i ==> is_white(#[trigger] chars@[k]),
        decreases chars@.len() - i,
    {
        i += 1;
    }
    let mut j: usize = chars.len();
    while j > i && white(chars[j - 1])
        invariant
            i <= j <= chars@.len(),
            i < chars@.len() ==> !is_white(chars@[i as int]),
            forall|k: int| j <= k < chars@.len() ==> is_white(#[trigger] chars@[k]),
        decreases j,
    {
        j -= 1;
    }
    proof {
        assert(is_trimmed(text@, i as int, j as int));
    }
    let ghost s = text@.subrange(i as int, j as int);
    let start = if i < j && chars[i] == '+' {
        i + 1
    } else {
        i
    };
    let ghost digits = text@.subrange(start as int, j as int);
    proof {
        if s.len() > 0 && s[0] == '+' {
            assert(s.skip(1) =~= digits);
        } else {
            assert(s =~= digits);
        }
    }
    if start == j {
        return None;
    }
    let mut value: u64 = 0;
    let mut k = start;
    while k < j
        invariant
            start <= k <= j <= chars@.len(),
            chars@ == text@,
            digits == text@.subrange(start as int, j as int),
            is_trimmed(text@, i as int, j as int),
            s == text@.subrange(i as int, j as int),
            digits == unsigned(s),
            forall|m: int| 0 <= m < k - start ==> is_digit(#[trigger] digits[m]),
            value == decimal(digits.take(k - start)),
        decreases j - k,
    {
        let c = chars[k];
        proof {
            assert(digits[k - start] == c);
            let next = digits.take(k - start + 1);
            assert(next.drop_last() =~= digits.take(k - start));
            assert(next.last() == c);
        }
        if c < '0' || c > '9' {
            proof {
                assert(!is_digit(digits[k - start]));
                assert(number(s) is None);
            }
            return None;
        }
        let d = c as u32 - '0' as u32;
        let next = match value.checked_mul(10) {
            Some(v) => v.checked_add(d as u64),
            None => None,
        };
        match next {
            Some(v) => {
                value = v;
            },
            None => {
                proof {
                    if all_digits(digits) {
                        lemma_decimal_prefix(digits, k - start + 1);
                    }
                    assert(number(s) is None);
                }
                return None;
            },
        }
        k += 1;
    }
    proof {
        assert(digits.take(k - start) =~= digits);
        assert(number(s) == Some(value as nat));
    }
    value.checked_mul(MIB)
}

/// How much memory assets may use before they are swept out.
#[derive(Clone, Copy, Debug, PartialEq, Eq, Structural)]
pub struct MemoryBudget {
    pub cpu_limit: u64,
    pub gpu_limit: u64,
}

impl MemoryBudget {
    /// The budgets that were set, else a quarter of the memory of the machine for the CPU and a
    /// fixed amount for the GPU. A machine whose memory is not known counts as zero bytes.
    pub fn load(cpu_set: Option<u64>, gpu_set: Option<u64>, total_memory: u64) -> (b: MemoryBudget)
        ensures
            b.cpu_limit == (match cpu_set {
                Some(n) => n,
                None => if total_memory > 0 {
                    total_memory / 4
                } else {
                    DEFAULT_LIMIT
                },
            }),
            b.gpu_limit == (match gpu_set {
                Some(n) => n,
                None => DEFAULT_LIMIT,
            }),
    {
        let cpu_limit = match cpu_set {
            Some(n) => n,
            None => if total_memory > 0 {
                total_memory / 4
            } else {
                DEFAULT_LIMIT
            },
        };
        let gpu_limit = match gpu_set {
            Some(n) => n,
            None => DEFAULT_LIMIT,
        };
        MemoryBudget { cpu_limit, gpu_limit }
    }
}

/// A number is read digit by digit, each place counting ten times the next.
pub proof fn digits_count_by_their_place(s: Seq<char>, d: char)
    requires
        '0' <= d <= '9',
    ensures
        decimal(Seq::<char>::empty()) == 0,
        decimal(s.push(d)) == decimal(s) * 10 + (d as int - '0' as int),
{
    assert(s.push(d).drop_last() =~= s);
}

/// A budget of digits alone counts as many units of 1024 times 1024 bytes as they say; a plus in
/// front changes nothing, and what does not fit into 64 bits stands for nothing.
pub proof fn budgets_count_mebibytes(text: Seq<char>, r: Option<u64>)
    requires
        text.len() > 0,
        forall|i: int| 0 <= i < text.len() ==> '0' <= #[trigger] text[i] <= '9',
        stands_for(text, r) || stands_for(seq!['+'] + text, r),
    ensures
        decimal(text) * 1024 * 1024 <= u64::MAX ==> r == Some(
            (decimal(text) * 1024 * 1024) as u64,
        ),
        decimal(text) * 1024 * 1024 > u64::MAX ==> r is None,
{
    let signed = seq!['+'] + text;
    let given = if stands_for(text, r) {
        text
    } else {
        signed
    };
    let (i, j) = choose|i: int, j: int| #[trigger]
        is_trimmed(given, i, j) && (match number(given.subrange(i, j)) {
            Some(n) => if n * MIB <= u64::MAX {
                r == Some((n * MIB) as u64)
            } else {
                r is None
            },
            None => r is None,
        });
    assert(forall|k: int| 0 <= k < given.len() ==> !is_white(#[trigger] given[k]));
    if i > 0 {
        assert(is_white(given[0]));
    }
    if j < given.len() {
        assert(is_white(given[j]));
    }
    assert(given.subrange(i, j) =~= given);
    assert(signed.skip(1) =~= text);
    assert(unsigned(given) == text);
    assert(all_digits(text));
    assert(decimal(text) * 1024 * 1024 == decimal(text) * MIB) by (nonlinear_arith)
        requires
            MIB == 1024 * 1024,
    ;
    if decimal(text) > u64::MAX {
        assert(decimal(text) * 1024 * 1024 > u64::MAX) by (nonlinear_arith)
            requires
                decimal(text) > u64::MAX,
        ;
    }
}

/// What is left of a text without the white space around it begins and ends with something else,
/// and nothing else was taken away; a text of anything but digits stands for no budget.
pub proof fn only_digits_stand_for_a_budget(text: Seq<char>, r: Option<u64>)
    requires
        stands_for(text, r),
        r is Some,
    ensures
        exists|i: int, j: int|
            #![trigger text.subrange(i, j)]
            0 <= i < j <= text.len() && (forall|k: int|
                0 <= k < i || j <= k < text.len() ==> is_white(#[trigger] text[k])) && (forall|k: int|
                i <= k < j ==> '0' <= #[trigger] text[k] <= '9' || (k == i && text[k] == '+')),
{
    let (i, j) = choose|i: int, j: int| #[trigger]
        is_trimmed(text, i, j) && (match number(text.subrange(i, j)) {
            Some(n) => if n * MIB <= u64::MAX {
                r == Some((n * MIB) as u64)
            } else {
                r is None
            },
            None => r is None,
        });
    let inner = text.subrange(i, j);
    assert(number(inner) is Some);
    let digits = unsigned(inner);
    assert(inner.len() > 0);
    assert forall|k: int| i <= k < j implies '0' <= #[trigger] text[k] <= '9' || (k == i && text[k]
        == '+') by {
        assert(inner[k - i] == text[k]);
        if inner[0] == '+' {
            if k > i {
                assert(digits[k - i - 1] == text[k]);
                assert(is_digit(digits[k - i - 1]));
            }
        } else {
            assert(digits[k - i] == text[k]);
            assert(is_digit(digits[k - i]));
        }
    }
}

/// A mebibyte is 1024 times 1024 bytes, and without anything known the limit is 2048 of them.
pub proof fn limits_are_in_mebibytes()
    ensures
        MIB == 1024 * 1024,
        DEFAULT_LIMIT == 2048 * MIB,
{
}

/// A limit that was set holds. Else main memory gets a quarter of what the machine has, where that
/// is known, and graphics memory what holds without anything known.
pub proof fn set_limits_hold(
    cpu_set: Option<u64>,
    gpu_set: Option<u64>,
    total_memory: u64,
    b: MemoryBudget,
)
    requires
        call_ensures(MemoryBudget::load, (cpu_set, gpu_set, total_memory), b),
    ensures
        cpu_set is Some ==> b.cpu_limit == cpu_set->0,
        cpu_set is None && total_memory > 0 ==> 4 * b.cpu_limit <= total_memory < 4 * (b.cpu_limit
            + 1),
        cpu_set is None && total_memory == 0 ==> b.cpu_limit == 2048 * 1024 * 1024,
        gpu_set is Some ==> b.gpu_limit == gpu_set->0,
        gpu_set is None ==> b.gpu_limit == 2048 * 1024 * 1024,
{
}

} // verus!
