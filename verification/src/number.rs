//! Numbers of a document: integral or decimal, read from text and compared
//! exactly.

use crate::text::chars_of;
use vstd::prelude::*;

verus! {

/// The outcome of comparing two numbers.
#[derive(Debug, Clone, Copy, PartialEq, Eq, Structural)]
pub enum Comparison {
    Less,
    Equal,
    Greater,
}

/// A decimal number: `mantissa * 10^exponent`, negated when `negative`.
#[derive(Debug, Clone, Copy, PartialEq, Eq, Structural)]
pub struct Decimal {
    pub negative: bool,
    pub mantissa: u64,
    pub exponent: i32,
}

/// A number of a document. Which variant it is records how it was written:
/// without or with a fraction or exponent.
#[derive(Debug, Clone, Copy, PartialEq, Eq, Structural)]
pub enum Number {
    Integral(i64),
    Floating(Decimal),
}

/// Ten to the power `n`.
pub open spec fn pow10(n: nat) -> nat
    decreases n,
{
    if n == 0 {
        1
    } else {
        10 * pow10((n - 1) as nat)
    }
}

/// Whether `c` is one of the ten decimal digits.
pub open spec fn is_digit(c: char) -> bool {
    '0' <= c <= '9'
}

/// The value of a decimal digit.
pub open spec fn digit_value(c: char) -> nat {
    (c as nat - '0' as nat) as nat
}

/// The value of the digits `s` read after the digits that gave `acc`.
pub open spec fn fold_digits(s: Seq<char>, acc: nat) -> nat
    decreases s.len(),
{
    if s.len() == 0 {
        acc
    } else {
        fold_digits(s.drop_first(), acc * 10 + digit_value(s[0]))
    }
}

/// The end of the longest run of digits in `s` that starts at `from`.
pub open spec fn run_end(s: Seq<char>, from: int) -> int
    decreases s.len() - from,
{
    if 0 <= from < s.len() && is_digit(s[from]) {
        run_end(s, from + 1)
    } else {
        from
    }
}

/// How a number's text divides into sign, integer digits, fraction digits and
/// exponent. Each part is given by the positions where it starts and ends.
pub ghost struct Layout {
    pub negative: bool,
    pub int_start: int,
    pub int_end: int,
    pub has_fraction: bool,
    pub fraction_start: int,
    pub fraction_end: int,
    pub has_exponent: bool,
    pub exponent_negative: bool,
    pub exponent_start: int,
    pub exponent_end: int,
}

/// The layout of `s`, read greedily from the left.
pub open spec fn layout(s: Seq<char>) -> Layout {
    let negative = s.len() > 0 && s[0] == '-';
    let int_start = if negative {
        1int
    } else {
        0int
    };
    let int_end = run_end(s, int_start);
    let has_fraction = int_end < s.len() && s[int_end] == '.';
    let fraction_start = if has_fraction {
        int_end + 1
    } else {
        int_end
    };
    let fraction_end = run_end(s, fraction_start);
    let has_exponent = fraction_end < s.len() && (s[fraction_end] == 'e' || s[fraction_end]
        == 'E');
    let signed_exponent = has_exponent && fraction_end + 1 < s.len() && (s[fraction_end + 1] == '+'
        || s[fraction_end + 1] == '-');
    let exponent_start = if signed_exponent {
        fraction_end + 2
    } else if has_exponent {
        fraction_end + 1
    } else {
        fraction_end
    };
    let exponent_end = run_end(s, exponent_start);
    Layout {
        negative,
        int_start,
        int_end,
        has_fraction,
        fraction_start,
        fraction_end,
        has_exponent,
        exponent_negative: signed_exponent && s[fraction_end + 1] == '-',
        exponent_start,
        exponent_end,
    }
}

impl Layout {
    /// Whether the parts make up a whole number text: integer digits, then if
    /// there is a point at least one digit after it, then if there is an
    /// exponent mark at least one digit after it, and nothing left over.
    pub open spec fn complete(&self, s: Seq<char>) -> bool {
        &&& self.int_start < self.int_end
        &&& self.has_fraction ==> self.fraction_start < self.fraction_end
        &&& self.has_exponent ==> self.exponent_start < self.exponent_end
        &&& self.exponent_end == s.len()
    }

    /// The digits before and after the point, read as one natural number.
    pub open spec fn mantissa(&self, s: Seq<char>) -> nat {
        fold_digits(
            s.subrange(self.fraction_start, self.fraction_end),
            fold_digits(s.subrange(self.int_start, self.int_end), 0),
        )
    }

    /// The exponent as written, without its sign.
    pub open spec fn written_exponent(&self, s: Seq<char>) -> nat {
        fold_digits(s.subrange(self.exponent_start, self.exponent_end), 0)
    }

    /// The power of ten that the mantissa is scaled by: the written exponent
    /// with its sign, less one for each digit after the point.
    pub open spec fn exponent(&self, s: Seq<char>) -> int {
        (if self.exponent_negative {
            -(self.written_exponent(s) as int)
        } else {
            self.written_exponent(s) as int
        }) - (self.fraction_end - self.fraction_start)
    }
}

/// The largest exponent that may be written, without its sign.
pub const WRITTEN_EXPONENT_LIMIT: u64 = 0x8000_0000;

/// The number that the text `s` denotes, if it denotes one.
///
/// The text is an optional `-`, digits, optionally a point and digits, and
/// optionally `e` or `E`, a sign and digits. Text without point and exponent
/// whose value fits in 64 signed bits is integral. Any other text is floating,
/// provided its digits fit in 64 unsigned bits, its exponent is written with
/// a number of at most `2^31`, and the exponent adjusted for the fraction fits
/// in 32 signed bits.
pub open spec fn number_of_text(s: Seq<char>) -> Option<Number> {
    let l = layout(s);
    let mantissa = l.mantissa(s);
    let exponent = l.exponent(s);
    if !l.complete(s) || mantissa > u64::MAX || l.written_exponent(s) > WRITTEN_EXPONENT_LIMIT
        || exponent < i32::MIN || exponent > i32::MAX {
        None
    } else if !l.has_fraction && !l.has_exponent && !l.negative && mantissa <= i64::MAX {
        Some(Number::Integral(mantissa as i64))
    } else if !l.has_fraction && !l.has_exponent && l.negative && mantissa <= i64::MAX + 1 {
        Some(Number::Integral((-(mantissa as int)) as i64))
    } else {
        Some(
            Number::Floating(
                Decimal { negative: l.negative, mantissa: mantissa as u64, exponent: exponent as i32 },
            ),
        )
    }
}

/// Reading more digits never lowers the value.
pub proof fn lemma_fold_digits_monotonic(s: Seq<char>, acc: nat)
    ensures
        fold_digits(s, acc) >= acc,
    decreases s.len(),
{
    if s.len() > 0 {
        lemma_fold_digits_monotonic(s.drop_first(), acc * 10 + digit_value(s[0]));
    }
}

/// The end of the run of digits that starts at `from`.
pub(crate) fn scan_digits(chars: &Vec<char>, from: usize) -> (end: usize)
    requires
        from <= chars@.len(),
    ensures
        end == run_end(chars@, from as int),
        from <= end <= chars@.len(),
        forall|i: int| from <= i < end ==> is_digit(#[trigger] chars@[i]),
        end < chars@.len() ==> !is_digit(chars@[end as int]),
{
    let mut end: usize = from;
    while end < chars.len() && '0' <= chars[end] && chars[end] <= '9'
        invariant
            from <= end <= chars@.len(),
            run_end(chars@, from as int) == run_end(chars@, end as int),
            forall|i: int| from <= i < end ==> is_digit(#[trigger] chars@[i]),
        decreases chars@.len() - end,
    {
        end += 1;
    }
    end
}

/// The value of the digits at `from..to`, read after the digits that gave
/// `start`, unless it exceeds 64 bits.
pub(crate) fn read_digits(chars: &Vec<char>, from: usize, to: usize, start: u64) -> (r: Option<
    u64,
>)
    requires
        from <= to <= chars@.len(),
        forall|i: int| from <= i < to ==> is_digit(#[trigger] chars@[i]),
    ensures
        match r {
            Some(v) => v == fold_digits(chars@.subrange(from as int, to as int), start as nat),
            None => fold_digits(chars@.subrange(from as int, to as int), start as nat) > u64::MAX,
        },
{
    let mut acc: u64 = start;
    let mut i: usize = from;
    let ghost whole = fold_digits(chars@.subrange(from as int, to as int), start as nat);
    while i < to
        invariant
            from <= i <= to <= chars@.len(),
            forall|i: int| from <= i < to ==> is_digit(#[trigger] chars@[i]),
            fold_digits(chars@.subrange(i as int, to as int), acc as nat) == whole,
            whole == fold_digits(chars@.subrange(from as int, to as int), start as nat),
        decreases to - i,
    {
        let c = chars[i];
        let d: u64 = (c as u32 - '0' as u32) as u64;
        let ghost rest = chars@.subrange(i as int, to as int);
        proof {
            assert(rest.drop_first() =~= chars@.subrange(i + 1, to as int));
            assert(rest[0] == c);
            assert(d == digit_value(c));
            lemma_fold_digits_monotonic(rest.drop_first(), acc as nat * 10 + d as nat);
        }
        if acc > (u64::MAX - d) / 10 {
            assert(acc * 10 + d > u64::MAX);
            assert(whole == fold_digits(rest.drop_first(), acc as nat * 10 + d as nat));
            return None;
        }
        acc = acc * 10 + d;
        i += 1;
    }
    assert(chars@.subrange(to as int, to as int).len() == 0);
    Some(acc)
}

impl Number {
    /// Reads a number from its text.
    pub fn parse(text: &str) -> (r: Option<Number>)
        ensures
            r == number_of_text(text@),
    {
        Number::from_chars(&chars_of(text))
    }

    /// Reads a number from its characters.
    pub fn from_chars(chars: &Vec<char>) -> (r: Option<Number>)
        ensures
            r == number_of_text(chars@),
    {
        let n = chars.len();
        let ghost l = layout(chars@);
        let negative = n > 0 && chars[0] == '-';
        let int_start: usize = if negative {
            1
        } else {
            0
        };
        let int_end = scan_digits(chars, int_start);
        let has_fraction = int_end < n && chars[int_end] == '.';
        let fraction_start: usize = if has_fraction {
            int_end + 1
        } else {
            int_end
        };
        let fraction_end = scan_digits(chars, fraction_start);
        let has_exponent = fraction_end < n && (chars[fraction_end] == 'e' || chars[fraction_end]
            == 'E');
        let signed_exponent = has_exponent && fraction_end + 1 < n && (chars[fraction_end + 1]
            == '+' || chars[fraction_end + 1] == '-');
        let exponent_negative = signed_exponent && chars[fraction_end + 1] == '-';
        let exponent_start: usize = if signed_exponent {
            fraction_end + 2
        } else if has_exponent {
            fraction_end + 1
        } else {
            fraction_end
        };
        let exponent_end = scan_digits(chars, exponent_start);
        assert(l.int_start == int_start && l.int_end == int_end && l.fraction_start
            == fraction_start && l.fraction_end == fraction_end && l.exponent_start
            == exponent_start && l.exponent_end == exponent_end);
        if int_start == int_end || (has_fraction && fraction_start == fraction_end) || (
        has_exponent && exponent_start == exponent_end) || exponent_end != n {
            return None;
        }
        let ghost int_value = fold_digits(chars@.subrange(int_start as int, int_end as int), 0);
        proof {
            lemma_fold_digits_monotonic(
                chars@.subrange(fraction_start as int, fraction_end as int),
                int_value,
            );
        }
        let mantissa = match read_digits(chars, int_start, int_end, 0) {
            Some(m) => match read_digits(chars, fraction_start, fraction_end, m) {
                Some(m) => m,
                None => {
                    return None;
                },
            },
            None => {
                return None;
            },
        };
        let written = match read_digits(chars, exponent_start, exponent_end, 0) {
            Some(w) => w,
            None => {
                return None;
            },
        };
        if written > WRITTEN_EXPONENT_LIMIT {
            return None;
        }
        let signed_written: i128 = if exponent_negative {
            -(written as i128)
        } else {
            written as i128
        };
        let exponent: i128 = signed_written - (fraction_end - fraction_start) as i128;
        if exponent < i32::MIN as i128 || exponent > i32::MAX as i128 {
            return None;
        }
        if !has_fraction && !has_exponent && !negative && mantissa <= i64::MAX as u64 {
            Some(Number::Integral(mantissa as i64))
        } else if !has_fraction && !has_exponent && negative && mantissa <= i64::MAX as u64 + 1 {
            Some(Number::Integral((-(mantissa as i128)) as i64))
        } else {
            Some(Number::Floating(Decimal { negative, mantissa, exponent: exponent as i32 }))
        }
    }
}

impl Decimal {
    /// The mantissa with its sign.
    pub open spec fn signed(&self) -> int {
        if self.negative {
            -(self.mantissa as int)
        } else {
            self.mantissa as int
        }
    }

    /// This number as a multiple of `10^base`, for a `base` not above its
    /// exponent.
    pub open spec fn scaled(&self, base: int) -> int
        recommends
            base <= self.exponent,
    {
        self.signed() * pow10((self.exponent - base) as nat)
    }

    /// How this number compares to `other` by value: both are scaled to the
    /// smaller of the two exponents, where they are integers.
    pub open spec fn compare_spec(&self, other: Decimal) -> Comparison {
        let base = if self.exponent <= other.exponent {
            self.exponent as int
        } else {
            other.exponent as int
        };
        if self.scaled(base) < other.scaled(base) {
            Comparison::Less
        } else if self.scaled(base) == other.scaled(base) {
            Comparison::Equal
        } else {
            Comparison::Greater
        }
    }

    /// The integer `n` as a decimal with exponent zero.
    pub open spec fn of_int(n: i64) -> Decimal {
        Decimal {
            negative: n < 0,
            mantissa: (if n < 0 {
                -(n as int)
            } else {
                n as int
            }) as u64,
            exponent: 0,
        }
    }

    /// The integer `n` as a decimal with exponent zero.
    pub fn from_integer(n: i64) -> (r: Decimal)
        ensures
            r == Decimal::of_int(n),
            r.signed() == n,
    {
        let mantissa: u64 = if n < 0 {
            (-(n as i128)) as u64
        } else {
            n as u64
        };
        Decimal { negative: n < 0, mantissa, exponent: 0 }
    }

    /// Compares two decimals by value.
    pub fn compare(&self, other: &Decimal) -> (r: Comparison)
        ensures
            r == self.compare_spec(*other),
    {
        let ghost base = if self.exponent <= other.exponent {
            self.exponent as int
        } else {
            other.exponent as int
        };
        let up: i64 = if self.exponent <= other.exponent {
            0
        } else {
            self.exponent as i64 - other.exponent as i64
        };
        let down: i64 = if self.exponent <= other.exponent {
            other.exponent as i64 - self.exponent as i64
        } else {
            0
        };
        proof {
            lemma_pow10_positive(up as nat);
            lemma_pow10_positive(down as nat);
            assert(self.scaled(base) == self.signed() * pow10(up as nat));
            assert(other.scaled(base) == other.signed() * pow10(down as nat));
            lemma_sign_of_product(self.signed(), pow10(up as nat) as int);
            lemma_sign_of_product(other.signed(), pow10(down as nat) as int);
        }
        if self.mantissa == 0 || other.mantissa == 0 || self.negative != other.negative {
            let left: i8 = if self.mantissa == 0 {
                0
            } else if self.negative {
                -1
            } else {
                1
            };
            let right: i8 = if other.mantissa == 0 {
                0
            } else if other.negative {
                -1
            } else {
                1
            };
            if left < right {
                Comparison::Less
            } else if left == right {
                Comparison::Equal
            } else {
                Comparison::Greater
            }
        } else {
            let magnitudes = compare_magnitudes(self.mantissa, up, other.mantissa, down);
            proof {
                let x = self.mantissa as int * pow10(up as nat);
                let y = other.mantissa as int * pow10(down as nat);
                if self.negative {
                    assert(self.scaled(base) == -x) by (nonlinear_arith)
                        requires
                            self.scaled(base) == (-(self.mantissa as int)) * pow10(up as nat),
                            x == self.mantissa as int * pow10(up as nat),
                    ;
                    assert(other.scaled(base) == -y) by (nonlinear_arith)
                        requires
                            other.scaled(base) == (-(other.mantissa as int)) * pow10(down as nat),
                            y == other.mantissa as int * pow10(down as nat),
                    ;
                }
            }
            if self.negative {
                match magnitudes {
                    Comparison::Less => Comparison::Greater,
                    Comparison::Equal => Comparison::Equal,
                    Comparison::Greater => Comparison::Less,
                }
            } else {
                magnitudes
            }
        }
    }
}

/// A power of ten is at least one.
pub proof fn lemma_pow10_positive(n: nat)
    ensures
        pow10(n) >= 1,
    decreases n,
{
    if n > 0 {
        lemma_pow10_positive((n - 1) as nat);
    }
}

/// Powers of ten grow with the exponent.
pub proof fn lemma_pow10_monotonic(m: nat, n: nat)
    requires
        m <= n,
    ensures
        pow10(m) <= pow10(n),
    decreases n,
{
    if m < n {
        lemma_pow10_monotonic(m, (n - 1) as nat);
    }
}

/// A product with a positive factor has the sign of the other factor.
pub(crate) proof fn lemma_sign_of_product(x: int, p: int)
    requires
        p >= 1,
    ensures
        x > 0 ==> x * p >= p,
        x == 0 ==> x * p == 0,
        x < 0 ==> x * p <= -p,
{
    assert(x > 0 ==> x * p >= p) by (nonlinear_arith)
        requires
            p >= 1,
    ;
    assert(x < 0 ==> x * p <= -p) by (nonlinear_arith)
        requires
            p >= 1,
    ;
}

/// Multiplying by one changes nothing.
proof fn lemma_times_one(x: int, p: int)
    requires
        p == 1,
    ensures
        x * p == x,
{
}

/// Ten to the power `n`, for an `n` small enough that the result fits.
pub(crate) fn power_of_ten(n: u32) -> (r: u128)
    requires
        n <= 19,
    ensures
        r == pow10(n as nat),
        1 <= r <= 10_000_000_000_000_000_000u128,
{
    let mut r: u128 = 1;
    let mut i: u32 = 0;
    proof {
        reveal_with_fuel(pow10, 20);
        assert(pow10(19) == 10_000_000_000_000_000_000u128);
    }
    while i < n
        invariant
            i <= n <= 19,
            r == pow10(i as nat),
            pow10(19) == 10_000_000_000_000_000_000u128,
        decreases n - i,
    {
        proof {
            lemma_pow10_monotonic((i + 1) as nat, 19);
        }
        r = r * 10;
        i += 1;
    }
    proof {
        lemma_pow10_monotonic(n as nat, 19);
        lemma_pow10_positive(n as nat);
    }
    r
}

/// Compares `a * 10^up` with `b * 10^down` for nonzero `a` and `b`, where one
/// of the two powers is zero.
fn compare_magnitudes(a: u64, up: i64, b: u64, down: i64) -> (r: Comparison)
    requires
        a > 0,
        b > 0,
        up >= 0,
        down >= 0,
        up == 0 || down == 0,
    ensures
        r == (if a * pow10(up as nat) < b * pow10(down as nat) {
            Comparison::Less
        } else if a * pow10(up as nat) == b * pow10(down as nat) {
            Comparison::Equal
        } else {
            Comparison::Greater
        }),
{
    proof {
        reveal_with_fuel(pow10, 21);
        assert(pow10(20) == 100_000_000_000_000_000_000u128);
        assert(pow10(0) == 1);
    }
    if up >= 20 {
        proof {
            lemma_pow10_monotonic(20, up as nat);
            lemma_sign_of_product(a as int, pow10(up as nat) as int);
            lemma_times_one(b as int, pow10(down as nat) as int);
            assert(a * pow10(up as nat) >= pow10(20));
        }
        Comparison::Greater
    } else if down >= 20 {
        proof {
            lemma_pow10_monotonic(20, down as nat);
            lemma_sign_of_product(b as int, pow10(down as nat) as int);
            lemma_times_one(a as int, pow10(up as nat) as int);
            assert(b * pow10(down as nat) >= pow10(20));
        }
        Comparison::Less
    } else {
        let pa = power_of_ten(up as u32);
        let pb = power_of_ten(down as u32);
        assert(a as u128 * pa <= 0xffff_ffff_ffff_ffffu128 * 10_000_000_000_000_000_000u128)
            by (nonlinear_arith)
            requires
                a <= 0xffff_ffff_ffff_ffffu64,
                pa <= 10_000_000_000_000_000_000u128,
        ;
        assert(b as u128 * pb <= 0xffff_ffff_ffff_ffffu128 * 10_000_000_000_000_000_000u128)
            by (nonlinear_arith)
            requires
                b <= 0xffff_ffff_ffff_ffffu64,
                pb <= 10_000_000_000_000_000_000u128,
        ;
        let x: u128 = a as u128 * pa;
        let y: u128 = b as u128 * pb;
        assert(x == a * pow10(up as nat));
        assert(y == b * pow10(down as nat));
        if x < y {
            Comparison::Less
        } else if x == y {
            Comparison::Equal
        } else {
            Comparison::Greater
        }
    }
}

} // verus!
