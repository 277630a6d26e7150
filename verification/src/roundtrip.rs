//! Writing a number and reading the text again gives the number back: the
//! same kind of number, with the same value.

use crate::number::{
    digit_value, fold_digits, is_digit, layout, lemma_pow10_monotonic, lemma_pow10_positive,
    number_of_text, pow10, run_end, Comparison, Decimal, Number,
};
use crate::order::lemma_pow10_add;
use crate::render::{number_text, zeros, PLAIN_DIGITS, PLAIN_LIMIT};
use crate::text::{decimal_text, digit_char};
use vstd::prelude::*;

verus! {

/// Whether every character is a digit.
pub open spec fn all_digits(s: Seq<char>) -> bool {
    forall|i: int| 0 <= i < s.len() ==> is_digit(#[trigger] s[i])
}

/// The sign of a number text.
pub open spec fn sign_text(negative: bool) -> Seq<char> {
    if negative {
        seq!['-']
    } else {
        Seq::empty()
    }
}

/// The fraction of a number text: a point and digits, or nothing.
pub open spec fn fraction_text(fraction: Option<Seq<char>>) -> Seq<char> {
    match fraction {
        Some(digits) => seq!['.'] + digits,
        None => Seq::empty(),
    }
}

/// The exponent of a number text: `e`, a sign and digits, or nothing.
pub open spec fn exponent_text(exponent: Option<(bool, Seq<char>)>) -> Seq<char> {
    match exponent {
        Some((negative, digits)) => seq!['e'] + sign_text(negative) + digits,
        None => Seq::empty(),
    }
}

/// A number text put together from its parts.
pub open spec fn spelled(
    negative: bool,
    whole: Seq<char>,
    fraction: Option<Seq<char>>,
    exponent: Option<(bool, Seq<char>)>,
) -> Seq<char> {
    sign_text(negative) + whole + fraction_text(fraction) + exponent_text(exponent)
}

/// The character of a digit is a digit with that value.
proof fn lemma_digit_char(d: nat)
    requires
        d < 10,
    ensures
        is_digit(digit_char(d)),
        digit_value(digit_char(d)) == d,
{
}

/// A number in digits is made of digits, at least one.
pub proof fn lemma_decimal_text_digits(n: nat)
    ensures
        decimal_text(n).len() >= 1,
        all_digits(decimal_text(n)),
    decreases n,
{
    if n < 10 {
        lemma_digit_char(n);
    } else {
        lemma_decimal_text_digits(n / 10);
        lemma_digit_char(n % 10);
    }
}

/// One more digit at the end makes ten times the value and the digit.
proof fn lemma_fold_push(s: Seq<char>, acc: nat, c: char)
    ensures
        fold_digits(s.push(c), acc) == fold_digits(s, acc) * 10 + digit_value(c),
    decreases s.len(),
{
    if s.len() == 0 {
        assert(s.push(c).drop_first() =~= Seq::<char>::empty());
        assert(fold_digits(Seq::<char>::empty(), acc * 10 + digit_value(c)) == acc * 10
            + digit_value(c));
    } else {
        assert(s.push(c).drop_first() =~= s.drop_first().push(c));
        lemma_fold_push(s.drop_first(), acc * 10 + digit_value(s[0]), c);
    }
}

/// Digits read after other digits continue from their value.
proof fn lemma_fold_concat(a: Seq<char>, b: Seq<char>, acc: nat)
    ensures
        fold_digits(a + b, acc) == fold_digits(b, fold_digits(a, acc)),
    decreases a.len(),
{
    if a.len() == 0 {
        assert(a + b =~= b);
    } else {
        assert((a + b).drop_first() =~= a.drop_first() + b);
        lemma_fold_concat(a.drop_first(), b, acc * 10 + digit_value(a[0]));
    }
}

/// A number in digits has the number as its value.
pub proof fn lemma_fold_decimal_text(n: nat)
    ensures
        fold_digits(decimal_text(n), 0) == n,
    decreases n,
{
    if n < 10 {
        lemma_digit_char(n);
        assert(decimal_text(n).drop_first() =~= Seq::<char>::empty());
        assert(fold_digits(Seq::<char>::empty(), n) == n);
    } else {
        lemma_fold_decimal_text(n / 10);
        lemma_digit_char(n % 10);
        lemma_fold_push(decimal_text(n / 10), 0, digit_char(n % 10));
    }
}

/// Zeros at the end multiply by ten for each of them.
proof fn lemma_fold_zeros(k: nat, acc: nat)
    ensures
        fold_digits(zeros(k), acc) == acc * pow10(k),
        all_digits(zeros(k)),
    decreases k,
{
    if k == 0 {
        assert(acc * pow10(0) == acc) by (nonlinear_arith)
            requires
                pow10(0) == 1,
        ;
    } else {
        assert(zeros(k) =~= zeros((k - 1) as nat).push('0'));
        lemma_fold_push(zeros((k - 1) as nat), acc, '0');
        lemma_fold_zeros((k - 1) as nat, acc);
        assert((acc * pow10((k - 1) as nat)) * 10 == acc * (10 * pow10((k - 1) as nat)))
            by (nonlinear_arith);
    }
}

/// A number is below ten to the number of its digits.
proof fn lemma_decimal_text_bound(n: nat)
    ensures
        n < pow10(decimal_text(n).len()),
    decreases n,
{
    if n < 10 {
        assert(pow10(1) == 10) by {
            reveal_with_fuel(pow10, 2);
        }
    } else {
        lemma_decimal_text_bound(n / 10);
        let rest = decimal_text(n / 10).len();
        assert(pow10(rest + 1) == 10 * pow10(rest));
    }
}

/// A run of digits that ends at a character that is no digit, or at the end
/// of the text, ends there.
proof fn lemma_run_end_at(s: Seq<char>, i: int, j: int)
    requires
        0 <= i <= j <= s.len(),
        forall|k: int| i <= k < j ==> is_digit(#[trigger] s[k]),
        j < s.len() ==> !is_digit(s[j]),
    ensures
        run_end(s, i) == j,
    decreases j - i,
{
    if i < j {
        lemma_run_end_at(s, i + 1, j);
    }
}

/// How a number text that is put together from its parts is laid out: each
/// part is found again where it was put.
proof fn lemma_layout_of_spelled(
    negative: bool,
    whole: Seq<char>,
    fraction: Option<Seq<char>>,
    exponent: Option<(bool, Seq<char>)>,
)
    requires
        whole.len() > 0,
        all_digits(whole),
        fraction matches Some(f) ==> f.len() > 0 && all_digits(f),
        exponent matches Some((_, e)) ==> e.len() > 0 && all_digits(e),
    ensures
        ({
            let s = spelled(negative, whole, fraction, exponent);
            let l = layout(s);
            &&& l.negative == negative
            &&& l.has_fraction == fraction is Some
            &&& l.has_exponent == exponent is Some
            &&& l.exponent_negative == (exponent matches Some((n, _)) && n)
            &&& l.complete(s)
            &&& s.subrange(l.int_start, l.int_end) == whole
            &&& s.subrange(l.fraction_start, l.fraction_end) == (match fraction {
                Some(f) => f,
                None => Seq::empty(),
            })
            &&& s.subrange(l.exponent_start, l.exponent_end) == (match exponent {
                Some((_, e)) => e,
                None => Seq::empty(),
            })
        }),
{
    let s = spelled(negative, whole, fraction, exponent);
    let sign = sign_text(negative);
    let fr = fraction_text(fraction);
    let ex = exponent_text(exponent);
    let a = sign.len() as int;
    let b = a + whole.len();
    let c = b + fr.len();
    let d = c + ex.len();
    assert(s.len() == d);
    assert forall|k: int| a <= k < b implies is_digit(#[trigger] s[k]) by {
        assert(s[k] == whole[k - a]);
    }
    assert(s[a] == whole[0]);
    assert(is_digit(whole[0]));
    if negative {
        assert(s[0] == '-');
    }
    if b < d {
        if fraction is Some {
            assert(s[b] == '.');
        } else {
            assert(s[b] == 'e');
        }
    }
    lemma_run_end_at(s, a, b);
    assert(s.subrange(a, b) =~= whole);
    let fs = if fraction is Some {
        b + 1
    } else {
        b
    };
    match fraction {
        Some(f) => {
            assert forall|k: int| fs <= k < c implies is_digit(#[trigger] s[k]) by {
                assert(s[k] == f[k - fs]);
            }
            assert(s.subrange(fs, c) =~= f);
        },
        None => {
            assert(s.subrange(fs, c) =~= Seq::<char>::empty());
        },
    }
    if c < d {
        assert(s[c] == 'e');
    }
    lemma_run_end_at(s, fs, c);
    match exponent {
        Some((eneg, e)) => {
            let es = if eneg {
                c + 2
            } else {
                c + 1
            };
            if eneg {
                assert(s[c + 1] == '-');
            } else {
                assert(s[c + 1] == e[0]);
                assert(is_digit(e[0]));
            }
            assert forall|k: int| es <= k < d implies is_digit(#[trigger] s[k]) by {
                assert(s[k] == e[k - es]);
            }
            lemma_run_end_at(s, es, d);
            assert(s.subrange(es, d) =~= e);
        },
        None => {
            lemma_run_end_at(s, c, d);
            assert(s.subrange(c, d) =~= Seq::<char>::empty());
        },
    }
}

/// An integral number that is written and read again is the same number.
pub proof fn law_integral_reads_back(i: i64)
    ensures
        number_of_text(number_text(Number::Integral(i))) == Some(Number::Integral(i)),
{
    let size = (if i < 0 {
        -(i as int)
    } else {
        i as int
    }) as nat;
    let digits = decimal_text(size);
    lemma_decimal_text_digits(size);
    lemma_fold_decimal_text(size);
    lemma_layout_of_spelled(i < 0, digits, None, None);
    let s = spelled(i < 0, digits, None, None);
    assert(s =~= number_text(Number::Integral(i)));
    assert(fold_digits(Seq::<char>::empty(), size) == size);
    assert(fold_digits(Seq::<char>::empty(), 0) == 0);
}

/// The decimal that the text of a decimal is read as.
pub open spec fn read_back(d: Decimal) -> Decimal {
    if d.exponent >= 0 && decimal_text(d.mantissa as nat).len() + d.exponent <= PLAIN_DIGITS {
        Decimal {
            negative: d.negative,
            mantissa: (d.mantissa * pow10((d.exponent + 1) as nat)) as u64,
            exponent: -1i32,
        }
    } else {
        d
    }
}

/// What a number text that is put together from its parts, with a fraction
/// or an exponent among them, is read as.
proof fn lemma_read_spelled(
    negative: bool,
    whole: Seq<char>,
    fraction: Option<Seq<char>>,
    exponent: Option<(bool, Seq<char>)>,
    mantissa: nat,
    written: nat,
)
    requires
        whole.len() > 0,
        all_digits(whole),
        fraction matches Some(f) ==> f.len() > 0 && all_digits(f),
        exponent matches Some((_, e)) ==> e.len() > 0 && all_digits(e),
        fraction is Some || exponent is Some,
        mantissa == fold_digits(
            match fraction {
                Some(f) => f,
                None => Seq::empty(),
            },
            fold_digits(whole, 0),
        ),
        written == fold_digits(
            match exponent {
                Some((_, e)) => e,
                None => Seq::empty(),
            },
            0,
        ),
        mantissa <= u64::MAX,
        written <= 0x8000_0000,
        i32::MIN <= scale_of(fraction, exponent, written) <= i32::MAX,
    ensures
        number_of_text(spelled(negative, whole, fraction, exponent)) == Some(
            Number::Floating(
                Decimal {
                    negative,
                    mantissa: mantissa as u64,
                    exponent: scale_of(fraction, exponent, written) as i32,
                },
            ),
        ),
{
    lemma_layout_of_spelled(negative, whole, fraction, exponent);
}

/// The exponent of a number text with the given fraction and exponent.
pub open spec fn scale_of(
    fraction: Option<Seq<char>>,
    exponent: Option<(bool, Seq<char>)>,
    written: nat,
) -> int {
    (if exponent matches Some((n, _)) && n {
        -(written as int)
    } else {
        written as int
    }) - (match fraction {
        Some(f) => f.len() as int,
        None => 0,
    })
}

/// A sequence made of two sequences of digits is made of digits.
proof fn lemma_all_digits_concat(a: Seq<char>, b: Seq<char>)
    requires
        all_digits(a),
        all_digits(b),
    ensures
        all_digits(a + b),
{
    assert forall|k: int| 0 <= k < (a + b).len() implies is_digit(#[trigger] (a + b)[k]) by {
        if k < a.len() {
            assert((a + b)[k] == a[k]);
        } else {
            assert((a + b)[k] == b[k - a.len()]);
        }
    }
}

/// The digit zero alone reads as ten times what was read before it.
proof fn lemma_fold_zero(acc: nat)
    ensures
        fold_digits(seq!['0'], acc) == acc * 10,
        all_digits(seq!['0']),
{
    let zero = seq!['0'];
    assert(zero.drop_first() =~= Seq::<char>::empty());
    assert(digit_value('0') == 0);
    assert(fold_digits(Seq::<char>::empty(), acc * 10 + 0) == acc * 10);
}

/// A decimal written in full with zeros at its end is read as the decimal
/// with those zeros in its digits, which has the same value.
proof fn lemma_reads_plain(d: Decimal)
    requires
        d.exponent >= 0,
        decimal_text(d.mantissa as nat).len() + d.exponent <= PLAIN_DIGITS,
    ensures
        number_of_text(number_text(Number::Floating(d))) == Some(Number::Floating(read_back(d))),
        read_back(d).compare_spec(d) == Comparison::Equal,
{
    let m = d.mantissa as nat;
    let e = d.exponent as nat;
    let digits = decimal_text(m);
    let len = digits.len();
    lemma_decimal_text_digits(m);
    lemma_fold_decimal_text(m);
    lemma_decimal_text_bound(m);
    let whole = digits + zeros(e);
    let value = m * pow10(e);
    lemma_fold_zeros(e, m);
    lemma_fold_concat(digits, zeros(e), 0);
    lemma_all_digits_concat(digits, zeros(e));
    lemma_fold_zero(value);
    assert(pow10(e + 1) == 10 * pow10(e));
    assert(value * 10 == m * pow10(e + 1)) by (nonlinear_arith)
        requires
            value == m * pow10(e),
            pow10(e + 1) == 10 * pow10(e),
    ;
    lemma_pow10_add(len, e + 1);
    lemma_pow10_positive(e + 1);
    assert(m * pow10(e + 1) < pow10(len) * pow10(e + 1)) by (nonlinear_arith)
        requires
            m < pow10(len),
            pow10(e + 1) >= 1,
    ;
    lemma_pow10_monotonic(len + e + 1, 19);
    assert(pow10(19) == 10_000_000_000_000_000_000u64) by {
        reveal_with_fuel(pow10, 20);
    }
    assert(fold_digits(Seq::<char>::empty(), 0) == 0);
    lemma_read_spelled(d.negative, whole, Some(seq!['0']), None, value * 10, 0);
    assert(spelled(d.negative, whole, Some(seq!['0']), None) =~= number_text(
        Number::Floating(d),
    ));
    lemma_same_value(d);
}

/// A decimal with the zeros of its exponent in its digits has the same
/// value.
proof fn lemma_same_value(d: Decimal)
    requires
        d.exponent >= 0,
        d.mantissa * pow10((d.exponent + 1) as nat) <= u64::MAX,
    ensures
        (Decimal {
            negative: d.negative,
            mantissa: (d.mantissa * pow10((d.exponent + 1) as nat)) as u64,
            exponent: -1i32,
        }).compare_spec(d) == Comparison::Equal,
{
    let p = pow10((d.exponent + 1) as nat);
    let back = Decimal { negative: d.negative, mantissa: (d.mantissa * p) as u64, exponent: -1i32 };
    assert(pow10(0) == 1);
    assert(back.scaled(-1) == back.signed() * pow10(0nat));
    assert(d.scaled(-1) == d.signed() * p);
    assert(back.signed() * pow10(0nat) == back.signed()) by (nonlinear_arith)
        requires
            pow10(0nat) == 1,
    ;
    assert((-(d.mantissa as int)) * p == -(d.mantissa * p)) by (nonlinear_arith);
}

/// A decimal written with an exponent is read as the same decimal.
proof fn lemma_reads_exponent(d: Decimal)
    requires
        (d.exponent >= 0 && decimal_text(d.mantissa as nat).len() + d.exponent > PLAIN_DIGITS) || (
        d.exponent < 0 && -d.exponent >= decimal_text(d.mantissa as nat).len() && -d.exponent
            > PLAIN_LIMIT),
    ensures
        number_of_text(number_text(Number::Floating(d))) == Some(Number::Floating(d)),
{
    let m = d.mantissa as nat;
    let digits = decimal_text(m);
    lemma_decimal_text_digits(m);
    lemma_fold_decimal_text(m);
    let size = (if d.exponent < 0 {
        -(d.exponent as int)
    } else {
        d.exponent as int
    }) as nat;
    let written = decimal_text(size);
    lemma_decimal_text_digits(size);
    lemma_fold_decimal_text(size);
    assert(fold_digits(Seq::<char>::empty(), m) == m);
    lemma_read_spelled(d.negative, digits, None, Some((d.exponent < 0, written)), m, size);
    assert(spelled(d.negative, digits, None, Some((d.exponent < 0, written))) =~= number_text(
        Number::Floating(d),
    ));
}

/// A decimal written with its point among its digits is read as the same
/// decimal.
proof fn lemma_reads_split(d: Decimal)
    requires
        d.exponent < 0,
        -d.exponent < decimal_text(d.mantissa as nat).len(),
    ensures
        number_of_text(number_text(Number::Floating(d))) == Some(Number::Floating(d)),
{
    let m = d.mantissa as nat;
    let digits = decimal_text(m);
    lemma_decimal_text_digits(m);
    lemma_fold_decimal_text(m);
    let cut = digits.len() + d.exponent;
    let whole = digits.take(cut);
    let fraction = digits.skip(cut);
    assert(whole + fraction =~= digits);
    lemma_fold_concat(whole, fraction, 0);
    assert(all_digits(whole)) by {
        assert forall|k: int| 0 <= k < whole.len() implies is_digit(#[trigger] whole[k]) by {
            assert(whole[k] == digits[k]);
        }
    }
    assert(all_digits(fraction)) by {
        assert forall|k: int| 0 <= k < fraction.len() implies is_digit(
            #[trigger] fraction[k],
        ) by {
            assert(fraction[k] == digits[k + cut]);
        }
    }
    assert(fold_digits(Seq::<char>::empty(), 0) == 0);
    lemma_read_spelled(d.negative, whole, Some(fraction), None, m, 0);
    assert(spelled(d.negative, whole, Some(fraction), None) =~= number_text(Number::Floating(d)));
}

/// A decimal below one written in full is read as the same decimal.
proof fn lemma_reads_small(d: Decimal)
    requires
        d.exponent < 0,
        decimal_text(d.mantissa as nat).len() <= -d.exponent <= PLAIN_LIMIT,
    ensures
        number_of_text(number_text(Number::Floating(d))) == Some(Number::Floating(d)),
{
    let m = d.mantissa as nat;
    let digits = decimal_text(m);
    lemma_decimal_text_digits(m);
    lemma_fold_decimal_text(m);
    let gap = (-d.exponent - digits.len()) as nat;
    let fill = zeros(gap);
    let fraction = fill + digits;
    lemma_fold_zeros(gap, 0);
    lemma_fold_concat(fill, digits, 0);
    assert(0 * pow10(gap) == 0) by (nonlinear_arith);
    lemma_all_digits_concat(fill, digits);
    lemma_fold_zero(0);
    assert(fold_digits(Seq::<char>::empty(), 0) == 0);
    lemma_read_spelled(d.negative, seq!['0'], Some(fraction), None, m, 0);
    assert(spelled(d.negative, seq!['0'], Some(fraction), None) =~= number_text(
        Number::Floating(d),
    ));
}

/// A floating number that is written and read again is a floating number
/// with the same value: the same decimal, but for one written with zeros at
/// its end, which comes back with those zeros in its digits.
pub proof fn law_floating_reads_back(d: Decimal)
    ensures
        number_of_text(number_text(Number::Floating(d))) == Some(Number::Floating(read_back(d))),
        read_back(d).compare_spec(d) == Comparison::Equal,
{
    let len = decimal_text(d.mantissa as nat).len();
    if d.exponent >= 0 {
        if len + d.exponent <= PLAIN_DIGITS {
            lemma_reads_plain(d);
        } else {
            lemma_reads_exponent(d);
        }
    } else if -d.exponent < len {
        lemma_reads_split(d);
    } else if -d.exponent <= PLAIN_LIMIT {
        lemma_reads_small(d);
    } else {
        lemma_reads_exponent(d);
    }
}

/// A number that is written and read again is a number of the same kind
/// with the same value.
pub proof fn law_number_reads_back(n: Number)
    ensures
        number_of_text(number_text(n)) matches Some(r) && (r is Integral <==> n is Integral)
            && r.as_decimal().compare_spec(n.as_decimal()) == Comparison::Equal,
{
    match n {
        Number::Integral(i) => {
            law_integral_reads_back(i);
        },
        Number::Floating(d) => {
            law_floating_reads_back(d);
        },
    }
}

} // verus!
