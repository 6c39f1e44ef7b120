//! Exact decimal amounts, held as a signed mantissa and a base-10 scale.
//!
//! The arithmetic and ordering are those of `rust_decimal::Decimal`, which the
//! wrappers at the end of this module call.

use rust_decimal::Decimal;
use std::cmp::Ordering;
use vstd::prelude::*;

verus! {

/// The largest mantissa magnitude a decimal can hold (96 bits).
pub const MAX_MANTISSA: i128 = 0xFFFF_FFFF_FFFF_FFFF_FFFF_FFFF;

/// The largest scale (digits after the point) a decimal can hold.
pub const MAX_SCALE: u32 = 28;

/// Ten to the power `n`.
pub open spec fn pow10(n: nat) -> int
    decreases n,
{
    if n == 0 {
        1
    } else {
        10 * pow10((n - 1) as nat)
    }
}

/// The decimal number `mantissa / 10^scale`.
#[derive(Clone, Copy, Debug, PartialEq, Eq, Structural)]
pub struct Amount {
    pub mantissa: i128,
    pub scale: u32,
}

impl Amount {
    /// The mantissa and scale lie in the range a decimal can represent.
    pub open spec fn wf(self) -> bool {
        -MAX_MANTISSA <= self.mantissa <= MAX_MANTISSA && self.scale <= MAX_SCALE
    }

    /// The number, counted in units of `10^-28`: every well-formed amount is a
    /// whole number of such units, so equal numbers have equal values however
    /// they are written (`1.0` and `1`).
    pub open spec fn value(self) -> int {
        self.mantissa * pow10((MAX_SCALE - self.scale) as nat)
    }

    /// The amount `num / 10^scale`.
    pub fn new(num: i64, scale: u32) -> (r: Amount)
        requires
            scale <= MAX_SCALE,
        ensures
            r.mantissa == num,
            r.scale == scale,
            r.wf(),
    {
        Amount { mantissa: num as i128, scale }
    }
}

/// What `rust_decimal` parses a text into, as `(mantissa, scale)`.
pub uninterp spec fn decimal_parse(s: Seq<char>) -> Option<(int, int)>;

/// What `rust_decimal` computes for `a - b`, both given as `(mantissa, scale)`.
pub uninterp spec fn decimal_sub(a: (int, int), b: (int, int)) -> Option<(int, int)>;

/// The `(mantissa, scale)` pair of an amount.
pub open spec fn parts(a: Amount) -> (int, int) {
    (a.mantissa as int, a.scale as int)
}

/// Relies on `FromStr for rust_decimal::Decimal`: the parsed number, or `None`
/// where the text is no decimal; a decimal keeps a 96-bit mantissa and a scale
/// of at most 28.
#[verifier::external_body]
pub(crate) fn parse_decimal(s: &str) -> (r: Option<Amount>)
    ensures
        r.is_some() == decimal_parse(s@).is_some(),
        r matches Some(a) ==> a.wf() && parts(a) == decimal_parse(s@).unwrap(),
{
    match <Decimal as std::str::FromStr>::from_str(s) {
        Ok(d) => Some(Amount { mantissa: d.mantissa(), scale: d.scale() }),
        Err(_) => None,
    }
}

/// Relies on `rust_decimal::Decimal::checked_sub`: `a - b`, or `None` where the
/// result overflows; `from_i128_with_scale` does not panic on well-formed parts.
#[verifier::external_body]
pub(crate) fn checked_difference(a: &Amount, b: &Amount) -> (r: Option<Amount>)
    requires
        a.wf(),
        b.wf(),
    ensures
        r.is_some() == decimal_sub(parts(*a), parts(*b)).is_some(),
        r matches Some(d) ==> d.wf() && parts(d) == decimal_sub(parts(*a), parts(*b)).unwrap(),
{
    let x = Decimal::from_i128_with_scale(a.mantissa, a.scale);
    let y = Decimal::from_i128_with_scale(b.mantissa, b.scale);
    x.checked_sub(y).map(|d| Amount { mantissa: d.mantissa(), scale: d.scale() })
}

/// Relies on `Ord for rust_decimal::Decimal`, which orders decimals by the
/// numbers they stand for.
#[verifier::external_body]
pub(crate) fn compare(a: &Amount, b: &Amount) -> (r: Ordering)
    requires
        a.wf(),
        b.wf(),
    ensures
        (r == Ordering::Less) == (a.value() < b.value()),
        (r == Ordering::Equal) == (a.value() == b.value()),
        (r == Ordering::Greater) == (a.value() > b.value()),
{
    let x = Decimal::from_i128_with_scale(a.mantissa, a.scale);
    let y = Decimal::from_i128_with_scale(b.mantissa, b.scale);
    x.cmp(&y)
}

} // verus!
