//! Amounts of money, and the arithmetic the library asks of them.
//!
//! The library moves amounts around without looking inside them. What an
//! amount is, and how two of them add up, is for the implementation of
//! [`Money`] to say; the contracts of the library name the results of its
//! arithmetic and state how the amounts flow.
//!
//! Of the two kinds of amount that are meant, only one can be written in
//! verified code: [`Decimal`], which is exact. Amounts in floating point are
//! implemented where the library is used; the laws of [`Exact`] do not hold
//! of them.

use vstd::prelude::*;
use vstd::string::StringExecFns;

verus! {

/// A kind of amount: a signed balance or a change to one.
///
/// Each operation comes twice: as a specification function that names its
/// result, and as the executable operation that computes it. An
/// implementation that is written outside verified code gives the two as
/// one: under the name of each result, the operation itself.
pub trait Money: Copy {
    /// The amount of an account that nothing was ever booked on.
    spec fn nil() -> Self;

    /// The sum of two amounts.
    spec fn plus(self, other: Self) -> Self;

    /// This amount less `other`.
    spec fn minus(self, other: Self) -> Self;

    /// The product of two amounts.
    spec fn times(self, other: Self) -> Self;

    /// This amount divided by `other`.
    spec fn over(self, other: Self) -> Self;

    /// The lesser of two amounts.
    spec fn lesser(self, other: Self) -> Self;

    /// The greater of two amounts.
    spec fn greater(self, other: Self) -> Self;

    /// The amount that stands for the fraction of two whole numbers.
    spec fn fraction(numerator: i64, denominator: i64) -> Self;

    /// The greatest amount there is.
    spec fn utmost() -> Self;

    /// Whether this amount is the same as `other`.
    spec fn same(self, other: Self) -> bool;

    /// The amount written out.
    spec fn text(self) -> String;

    fn zero() -> (amount: Self)
        ensures
            amount == Self::nil(),
    ;

    fn sum(self, other: Self) -> (amount: Self)
        ensures
            amount == self.plus(other),
    ;

    fn difference(self, other: Self) -> (amount: Self)
        ensures
            amount == self.minus(other),
    ;

    fn product(self, other: Self) -> (amount: Self)
        ensures
            amount == self.times(other),
    ;

    fn quotient(self, other: Self) -> (amount: Self)
        ensures
            amount == self.over(other),
    ;

    fn smaller(self, other: Self) -> (amount: Self)
        ensures
            amount == self.lesser(other),
    ;

    fn larger(self, other: Self) -> (amount: Self)
        ensures
            amount == self.greater(other),
    ;

    fn ratio(numerator: i64, denominator: i64) -> (amount: Self)
        ensures
            amount == Self::fraction(numerator, denominator),
    ;

    fn most() -> (amount: Self)
        ensures
            amount == Self::utmost(),
    ;

    fn is(self, other: Self) -> (equal: bool)
        ensures
            equal == self.same(other),
    ;

    fn to_text(self) -> (text: String)
        ensures
            text@ == self.text()@,
    ;
}

/// Amounts whose sums and differences are exact: taking away what was added
/// leaves what was there.
pub trait Exact: Money {
    /// An amount less itself is nothing.
    proof fn lemma_minus_itself(amount: Self)
        ensures
            amount.minus(amount) == Self::nil(),
    ;

    /// Adding to an amount and taking the amount away leaves what was added.
    proof fn lemma_plus_then_minus(amount: Self, added: Self)
        ensures
            amount.plus(added).minus(amount) == added,
    ;

    /// Adding nothing changes nothing.
    proof fn lemma_plus_nil(amount: Self)
        ensures
            amount.plus(Self::nil()) == amount,
            Self::nil().plus(amount) == amount,
    ;
}

/// How many units of a [`Decimal`] make one.
pub const DECIMAL_ONE: i64 = 10_000;

/// The character that stands for a digit.
pub open spec fn digit(value: int) -> Seq<char> {
    if value == 0 {
        "0"@
    } else if value == 1 {
        "1"@
    } else if value == 2 {
        "2"@
    } else if value == 3 {
        "3"@
    } else if value == 4 {
        "4"@
    } else if value == 5 {
        "5"@
    } else if value == 6 {
        "6"@
    } else if value == 7 {
        "7"@
    } else if value == 8 {
        "8"@
    } else {
        "9"@
    }
}

/// The decimal digits of a whole number.
pub open spec fn digits(value: nat) -> Seq<char>
    decreases value,
{
    if value < 10 {
        digit(value as int)
    } else {
        digits(value / 10) + digit((value % 10) as int)
    }
}

/// The decimal digits of so many ten-thousandths, fewer than ten thousand
/// and more than none, without the zeros at their end.
pub open spec fn fraction_digits(part: int) -> Seq<char> {
    if part % 1000 == 0 {
        digit(part / 1000)
    } else if part % 100 == 0 {
        digit(part / 1000) + digit(part / 100 % 10)
    } else if part % 10 == 0 {
        digit(part / 1000) + digit(part / 100 % 10) + digit(part / 10 % 10)
    } else {
        digit(part / 1000) + digit(part / 100 % 10) + digit(part / 10 % 10) + digit(part % 10)
    }
}

/// The character that stands for a digit.
fn digit_text(value: u64) -> (text: &'static str)
    requires
        value < 10,
    ensures
        text@ == digit(value as int),
{
    if value == 0 {
        "0"
    } else if value == 1 {
        "1"
    } else if value == 2 {
        "2"
    } else if value == 3 {
        "3"
    } else if value == 4 {
        "4"
    } else if value == 5 {
        "5"
    } else if value == 6 {
        "6"
    } else if value == 7 {
        "7"
    } else if value == 8 {
        "8"
    } else {
        "9"
    }
}

/// The decimal digits of a whole number.
fn write_digits(value: u64) -> (text: String)
    ensures
        text@ == digits(value as nat),
    decreases value,
{
    if value < 10 {
        String::from_str(digit_text(value))
    } else {
        write_digits(value / 10).concat(digit_text(value % 10))
    }
}

/// The decimal digits of so many ten-thousandths, without the zeros at
/// their end.
fn write_fraction(part: u64) -> (text: String)
    requires
        0 < part < 10_000,
    ensures
        text@ == fraction_digits(part as int),
{
    let text = String::from_str(digit_text(part / 1000));
    if part % 1000 == 0 {
        return text;
    }
    let text = text.concat(digit_text(part / 100 % 10));
    if part % 100 == 0 {
        return text;
    }
    let text = text.concat(digit_text(part / 10 % 10));
    if part % 10 == 0 {
        return text;
    }
    text.concat(digit_text(part % 10))
}

/// The quotient of two whole numbers, rounded toward zero.
pub open spec fn toward_zero(numerator: int, denominator: int) -> int
    recommends
        denominator != 0,
{
    if numerator >= 0 && denominator > 0 {
        numerator / denominator
    } else if numerator >= 0 {
        -(numerator / (-denominator))
    } else if denominator > 0 {
        -((-numerator) / denominator)
    } else {
        (-numerator) / (-denominator)
    }
}

/// The quotient of two whole numbers, rounded toward zero.
fn divide_toward_zero(numerator: i128, denominator: i128) -> (quotient: i128)
    requires
        denominator != 0,
        i128::MIN < numerator,
        i128::MIN < denominator,
    ensures
        quotient == toward_zero(numerator as int, denominator as int),
{
    let above: u128 = if numerator >= 0 {
        numerator as u128
    } else {
        (-numerator) as u128
    };
    let below: u128 = if denominator >= 0 {
        denominator as u128
    } else {
        (-denominator) as u128
    };
    let size: u128 = above / below;
    if (numerator >= 0) == (denominator > 0) {
        size as i128
    } else {
        -(size as i128)
    }
}

/// An exact amount with four decimal places, held as a count of
/// ten-thousandths. Sums and differences wrap around at the ends of `i64`;
/// products and quotients are rounded toward zero and then wrap around.
#[derive(Clone, Copy, Debug, PartialEq, Eq, Hash, Structural)]
pub struct Decimal {
    /// The amount in ten-thousandths.
    pub raw: i64,
}

impl Decimal {
    /// How many ten-thousandths the amount is from nothing.
    pub open spec fn size(self) -> int {
        if self.raw < 0 {
            -self.raw
        } else {
            self.raw as int
        }
    }

    /// The amount written out: a minus sign where it is below nothing, the
    /// digits of its whole part, and where it has a fraction a point and
    /// the digits of the fraction.
    pub open spec fn written(self) -> Seq<char> {
        (if self.raw < 0 {
            "-"@
        } else {
            Seq::empty()
        }) + digits((self.size() / 10_000) as nat) + (if self.size() % 10_000 == 0 {
            Seq::empty()
        } else {
            "."@ + fraction_digits(self.size() % 10_000)
        })
    }
}

impl Money for Decimal {
    open spec fn nil() -> Decimal {
        Decimal { raw: 0 }
    }

    open spec fn plus(self, other: Decimal) -> Decimal {
        Decimal { raw: (self.raw + other.raw) as i64 }
    }

    open spec fn minus(self, other: Decimal) -> Decimal {
        Decimal { raw: (self.raw - other.raw) as i64 }
    }

    open spec fn times(self, other: Decimal) -> Decimal {
        Decimal { raw: toward_zero(self.raw * other.raw, DECIMAL_ONE as int) as i64 }
    }

    open spec fn over(self, other: Decimal) -> Decimal {
        if other.raw == 0 {
            Decimal { raw: 0 }
        } else {
            Decimal { raw: toward_zero(self.raw * DECIMAL_ONE, other.raw as int) as i64 }
        }
    }

    open spec fn lesser(self, other: Decimal) -> Decimal {
        if other.raw < self.raw {
            other
        } else {
            self
        }
    }

    open spec fn greater(self, other: Decimal) -> Decimal {
        if other.raw > self.raw {
            other
        } else {
            self
        }
    }

    open spec fn fraction(numerator: i64, denominator: i64) -> Decimal {
        if denominator == 0 {
            Decimal { raw: 0 }
        } else {
            Decimal { raw: toward_zero(numerator * DECIMAL_ONE, denominator as int) as i64 }
        }
    }

    open spec fn utmost() -> Decimal {
        Decimal { raw: i64::MAX }
    }

    open spec fn same(self, other: Decimal) -> bool {
        self.raw == other.raw
    }

    open spec fn text(self) -> String {
        choose|text: String| text@ == self.written()
    }

    fn zero() -> Decimal {
        Decimal { raw: 0 }
    }

    fn sum(self, other: Decimal) -> Decimal {
        let wide: i128 = self.raw as i128 + other.raw as i128;
        Decimal { raw: #[verifier::truncate] (wide as i64) }
    }

    fn difference(self, other: Decimal) -> Decimal {
        let wide: i128 = self.raw as i128 - other.raw as i128;
        Decimal { raw: #[verifier::truncate] (wide as i64) }
    }

    fn product(self, other: Decimal) -> Decimal {
        assert(-0x4000_0000_0000_0000_0000_0000_0000_0000 <= self.raw * other.raw
            <= 0x4000_0000_0000_0000_0000_0000_0000_0000) by (nonlinear_arith)
            requires
                -0x8000_0000_0000_0000 <= self.raw <= 0x8000_0000_0000_0000,
                -0x8000_0000_0000_0000 <= other.raw <= 0x8000_0000_0000_0000,
        ;
        let wide: i128 = divide_toward_zero(self.raw as i128 * other.raw as i128, DECIMAL_ONE as i128);
        Decimal { raw: #[verifier::truncate] (wide as i64) }
    }

    fn quotient(self, other: Decimal) -> Decimal {
        if other.raw == 0 {
            Decimal { raw: 0 }
        } else {
            let wide: i128 = divide_toward_zero(self.raw as i128 * 10_000, other.raw as i128);
            Decimal { raw: #[verifier::truncate] (wide as i64) }
        }
    }

    fn smaller(self, other: Decimal) -> Decimal {
        if other.raw < self.raw {
            other
        } else {
            self
        }
    }

    fn larger(self, other: Decimal) -> Decimal {
        if other.raw > self.raw {
            other
        } else {
            self
        }
    }

    fn ratio(numerator: i64, denominator: i64) -> Decimal {
        if denominator == 0 {
            Decimal { raw: 0 }
        } else {
            let wide: i128 = divide_toward_zero(numerator as i128 * 10_000, denominator as i128);
            Decimal { raw: #[verifier::truncate] (wide as i64) }
        }
    }

    fn most() -> Decimal {
        Decimal { raw: i64::MAX }
    }

    fn is(self, other: Decimal) -> bool {
        self.raw == other.raw
    }

    fn to_text(self) -> String {
        let size: u64 = if self.raw < 0 {
            (-(self.raw as i128)) as u64
        } else {
            self.raw as u64
        };
        let mut text = if self.raw < 0 {
            String::from_str("-")
        } else {
            String::new()
        };
        text.append(write_digits(size / 10_000).as_str());
        if size % 10_000 != 0 {
            text.append(".");
            text.append(write_fraction(size % 10_000).as_str());
        }
        assert(text@ =~= self.written());
        text
    }
}

impl Exact for Decimal {
    proof fn lemma_minus_itself(amount: Decimal) {
    }

    proof fn lemma_plus_then_minus(amount: Decimal, added: Decimal) {
        let a = amount.raw;
        let b = added.raw;
        assert((((a + b) as i64) - a) as i64 == b) by (bit_vector);
    }

    proof fn lemma_plus_nil(amount: Decimal) {
    }
}

} // verus!
