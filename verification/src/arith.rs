//! Arithmetic on the numbers of a document: exact sums, and quotients to a
//! fixed number of places.

use crate::number::{
    lemma_pow10_monotonic, lemma_pow10_positive, lemma_sign_of_product, pow10, power_of_ten,
    Comparison, Decimal, Number,
};
use vstd::prelude::*;

verus! {

/// The absolute value of an integer.
pub open spec fn magnitude(x: int) -> int {
    if x < 0 {
        -x
    } else {
        x
    }
}

/// Whether an integer can be the mantissa of a decimal, with a sign.
pub open spec fn fits(x: int) -> bool {
    magnitude(x) <= u64::MAX
}

/// How many places a quotient keeps beyond those of the number divided.
pub const QUOTIENT_PLACES: u32 = 6;

impl Decimal {
    /// The sum of two decimals, exactly, at the smaller of the two exponents;
    /// nothing where one of the two scaled to that exponent, or the sum, has
    /// more digits than a mantissa holds.
    pub open spec fn plus_spec(&self, other: Decimal) -> Option<Decimal> {
        let base = if self.exponent <= other.exponent {
            self.exponent
        } else {
            other.exponent
        };
        let x = self.scaled(base as int);
        let y = other.scaled(base as int);
        if fits(x) && fits(y) && fits(x + y) {
            Some(
                Decimal {
                    negative: x + y < 0,
                    mantissa: magnitude(x + y) as u64,
                    exponent: base,
                },
            )
        } else {
            None
        }
    }

    /// This decimal without the zeros at the end of its fraction: the same
    /// value with the largest exponent that is not above zero, or its own.
    pub open spec fn trimmed(&self) -> Decimal
        decreases -(self.exponent as int),
    {
        if self.exponent < 0 && self.mantissa % 10 == 0 {
            (Decimal {
                negative: self.negative,
                mantissa: self.mantissa / 10,
                exponent: (self.exponent + 1) as i32,
            }).trimmed()
        } else {
            *self
        }
    }

    /// This decimal divided by a count, cut off after six more places than
    /// it has itself, and trimmed; nothing where the count is zero or the
    /// result has more digits or places than a decimal holds.
    pub open spec fn divided_spec(&self, count: nat) -> Option<Decimal> {
        let quotient = (self.mantissa * pow10(QUOTIENT_PLACES as nat)) / (count as int);
        let exponent = self.exponent - QUOTIENT_PLACES;
        if count > 0 && quotient <= u64::MAX && exponent >= i32::MIN {
            Some(
                (Decimal {
                    negative: self.negative && quotient > 0,
                    mantissa: quotient as u64,
                    exponent: exponent as i32,
                }).trimmed(),
            )
        } else {
            None
        }
    }

    /// The mantissa times ten to the power `shift`, where that fits.
    fn shifted(&self, shift: i64, Ghost(base): Ghost<int>) -> (r: Option<i128>)
        requires
            shift >= 0,
            shift == self.exponent - base,
        ensures
            match r {
                Some(x) => x == self.scaled(base) && fits(x as int),
                None => !fits(self.scaled(base)),
            },
    {
        proof {
            lemma_pow10_positive(shift as nat);
            lemma_sign_of_product(self.signed(), pow10(shift as nat) as int);
            reveal_with_fuel(pow10, 21);
            assert(pow10(20) == 100_000_000_000_000_000_000u128);
        }
        if self.mantissa == 0 {
            return Some(0);
        }
        if shift >= 20 {
            proof {
                lemma_pow10_monotonic(20, shift as nat);
            }
            return None;
        }
        let p = power_of_ten(shift as u32);
        assert(self.mantissa as u128 * p <= 0xffff_ffff_ffff_ffffu128
            * 10_000_000_000_000_000_000u128) by (nonlinear_arith)
            requires
                self.mantissa <= 0xffff_ffff_ffff_ffffu64,
                p <= 10_000_000_000_000_000_000u128,
        ;
        let x: u128 = self.mantissa as u128 * p;
        proof {
            if self.negative {
                assert(self.scaled(base) == -(x as int)) by (nonlinear_arith)
                    requires
                        self.scaled(base) == (-(self.mantissa as int)) * pow10(shift as nat),
                        x == self.mantissa * pow10(shift as nat),
                ;
            }
        }
        if x > u64::MAX as u128 {
            None
        } else if self.negative {
            Some(-(x as i128))
        } else {
            Some(x as i128)
        }
    }

    /// The sum of two decimals, where it can be held.
    pub fn plus(&self, other: &Decimal) -> (r: Option<Decimal>)
        ensures
            r == self.plus_spec(*other),
    {
        let base: i32 = if self.exponent <= other.exponent {
            self.exponent
        } else {
            other.exponent
        };
        let x = match self.shifted(self.exponent as i64 - base as i64, Ghost(base as int)) {
            Some(x) => x,
            None => {
                return None;
            },
        };
        let y = match other.shifted(other.exponent as i64 - base as i64, Ghost(base as int)) {
            Some(y) => y,
            None => {
                return None;
            },
        };
        let t: i128 = x + y;
        let size: i128 = if t < 0 {
            -t
        } else {
            t
        };
        if size > u64::MAX as i128 {
            None
        } else {
            Some(Decimal { negative: t < 0, mantissa: size as u64, exponent: base })
        }
    }

    /// This decimal without the zeros at the end of its fraction.
    pub fn trim(&self) -> (r: Decimal)
        ensures
            r == self.trimmed(),
    {
        let mut cur = *self;
        while cur.exponent < 0 && cur.mantissa % 10 == 0
            invariant
                cur.trimmed() == self.trimmed(),
            decreases -(cur.exponent as int),
        {
            cur = Decimal {
                negative: cur.negative,
                mantissa: cur.mantissa / 10,
                exponent: cur.exponent + 1,
            };
        }
        cur
    }

    /// This decimal divided by a count, where the result can be held.
    pub fn divided(&self, count: usize) -> (r: Option<Decimal>)
        ensures
            r == self.divided_spec(count as nat),
    {
        if count == 0 {
            return None;
        }
        let p = power_of_ten(QUOTIENT_PLACES);
        proof {
            reveal_with_fuel(pow10, 7);
            assert(pow10(6) == 1_000_000);
        }
        let scaled: u128 = self.mantissa as u128 * p;
        let quotient: u128 = scaled / (count as u128);
        let exponent: i64 = self.exponent as i64 - QUOTIENT_PLACES as i64;
        if quotient > u64::MAX as u128 || exponent < i32::MIN as i64 {
            return None;
        }
        let whole = Decimal {
            negative: self.negative && quotient > 0,
            mantissa: quotient as u64,
            exponent: exponent as i32,
        };
        Some(whole.trim())
    }
}

impl Number {
    /// How this number compares to `other` by value.
    pub open spec fn compare_spec(&self, other: Number) -> Comparison {
        self.as_decimal().compare_spec(other.as_decimal())
    }

    /// The sum of two numbers: integral where both are and the sum fits,
    /// and otherwise the sum of both as decimals, where that can be held.
    pub open spec fn plus_spec(&self, other: Number) -> Option<Number> {
        match (*self, other) {
            (Number::Integral(a), Number::Integral(b)) => if i64::MIN <= a + b <= i64::MAX {
                Some(Number::Integral((a + b) as i64))
            } else {
                None
            },
            _ => match self.as_decimal().plus_spec(other.as_decimal()) {
                Some(d) => Some(Number::Floating(d)),
                None => None,
            },
        }
    }

    /// This number as a decimal.
    pub fn to_decimal(&self) -> (r: Decimal)
        ensures
            r == self.as_decimal(),
    {
        match self {
            Number::Integral(n) => Decimal::from_integer(*n),
            Number::Floating(d) => *d,
        }
    }

    /// Compares two numbers by value.
    pub fn compare(&self, other: &Number) -> (r: Comparison)
        ensures
            r == self.compare_spec(*other),
    {
        self.to_decimal().compare(&other.to_decimal())
    }

    /// The sum of two numbers, where it can be held.
    pub fn plus(&self, other: &Number) -> (r: Option<Number>)
        ensures
            r == self.plus_spec(*other),
    {
        match (self, other) {
            (Number::Integral(a), Number::Integral(b)) => {
                let t: i128 = *a as i128 + *b as i128;
                if t < i64::MIN as i128 || t > i64::MAX as i128 {
                    None
                } else {
                    Some(Number::Integral(t as i64))
                }
            },
            _ => match self.to_decimal().plus(&other.to_decimal()) {
                Some(d) => Some(Number::Floating(d)),
                None => None,
            },
        }
    }
}

} // verus!
