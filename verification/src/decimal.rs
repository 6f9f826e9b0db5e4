//! Decimal numbers as plain integers, and their conversion to microdegrees.
//!
//! A decimal is held as a mantissa and a count of fractional digits. Parsing
//! and rescaling are done by the `rust_decimal` crate; what this module claims
//! of those calls is stated in their contracts and is not proved here.

use vstd::arithmetic::div_mod::{lemma_fundamental_div_mod, lemma_fundamental_div_mod_converse};
use vstd::prelude::*;

verus! {

/// The number of fractional digits of a scaled coordinate: microdegrees.
pub const SCALE: u32 = 6;

/// The largest mantissa magnitude: 2^96 - 1.
pub const MAX_MANTISSA: i128 = 0xFFFF_FFFF_FFFF_FFFF_FFFF_FFFF;

/// The largest count of fractional digits.
pub const MAX_SCALE: u32 = 28;

/// The decimal number `mantissa / 10^scale`.
#[derive(Debug, Clone, Copy, PartialEq, Eq, Structural)]
pub struct DecimalNumber {
    pub mantissa: i128,
    pub scale: u32,
}

/// `10^n`.
pub open spec fn pow10(n: nat) -> int
    decreases n,
{
    if n == 0 {
        1
    } else {
        10 * pow10((n - 1) as nat)
    }
}

/// `|v|`.
pub open spec fn magnitude(v: int) -> int {
    if v < 0 {
        -v
    } else {
        v
    }
}

/// `m` multiplied by ten up to `k` times, stopping before the magnitude would
/// leave 96 bits.
pub open spec fn scaled_up(m: int, k: nat) -> int
    decreases k,
{
    if k == 0 || magnitude(m) * 10 > MAX_MANTISSA {
        m
    } else {
        scaled_up(m * 10, (k - 1) as nat)
    }
}

/// `m` with its last `k >= 1` digits dropped, rounded half away from zero:
/// the most significant dropped digit alone decides the rounding.
pub open spec fn scaled_down(m: int, k: nat) -> int {
    let kept = magnitude(m) / pow10((k - 1) as nat);
    let rounded = if kept % 10 >= 5 {
        kept / 10 + 1
    } else {
        kept / 10
    };
    if m < 0 {
        -rounded
    } else {
        rounded
    }
}

/// The mantissa of `mantissa / 10^scale` once it is brought to `target`
/// fractional digits, or as near to `target` as 96 bits allow.
pub open spec fn rescaled(mantissa: int, scale: nat, target: nat) -> int {
    if scale == target {
        mantissa
    } else if scale > target {
        scaled_down(mantissa, (scale - target) as nat)
    } else {
        scaled_up(mantissa, (target - scale) as nat)
    }
}

/// What `rust_decimal` reads from a text: the mantissa and the scale of the
/// decimal, or `None` where it rejects the text.
pub uninterp spec fn parsed_decimal(text: Seq<char>) -> Option<(int, int)>;

/// The error that `rust_decimal` reports.
#[verifier::external_type_specification]
#[verifier::external_body]
pub struct ExDecimalError(rust_decimal::Error);

impl DecimalNumber {
    /// The mantissa has at most 96 bits and the scale is at most 28: the
    /// numbers that `rust_decimal` can hold.
    pub open spec fn representable(self) -> bool {
        -MAX_MANTISSA <= self.mantissa <= MAX_MANTISSA && self.scale <= MAX_SCALE
    }

    /// The number as a count of microdegrees, as an unbounded integer.
    pub open spec fn microdegrees(self) -> int {
        rescaled(self.mantissa as int, self.scale as nat, SCALE as nat)
    }

    /// The number as a 64-bit count of microdegrees, where it has one.
    pub open spec fn coordinate(self) -> Option<i64> {
        if self.representable() && i64::MIN <= self.microdegrees() <= i64::MAX {
            Some(self.microdegrees() as i64)
        } else {
            None
        }
    }

    /// Whether this is the decimal that a parse yielded.
    pub open spec fn is_parse_of(self, parsed: Option<(int, int)>) -> bool {
        parsed == Some((self.mantissa as int, self.scale as int))
    }

    /// Whether `rust_decimal` can hold the number.
    pub fn is_representable(&self) -> (r: bool)
        ensures
            r == self.representable(),
    {
        -MAX_MANTISSA <= self.mantissa && self.mantissa <= MAX_MANTISSA && self.scale <= MAX_SCALE
    }

    /// Scales the number to microdegrees.
    ///
    /// Returns `None` exactly when the number is not representable or its
    /// microdegree count does not fit an `i64`.
    pub fn scale_coordinate(&self) -> (r: Option<i64>)
        ensures
            r == self.coordinate(),
    {
        if !self.is_representable() {
            return None;
        }
        let scaled = rescaled_mantissa(self.mantissa, self.scale, SCALE);
        if scaled < i64::MIN as i128 || scaled > i64::MAX as i128 {
            None
        } else {
            Some(scaled as i64)
        }
    }

    /// Reads a decimal from text.
    ///
    /// Succeeds exactly on the texts that `rust_decimal` accepts; the error
    /// carries its message.
    pub fn parse(text: &str) -> (r: Result<DecimalNumber, String>)
        ensures
            r is Ok <==> parsed_decimal(text@) is Some,
            r matches Ok(d) ==> d.representable() && d.is_parse_of(parsed_decimal(text@)),
    {
        match parse_decimal(text) {
            Ok(d) => Ok(d),
            Err(e) => Err(decimal_error_text(&e)),
        }
    }
}

/// Calls `Decimal::rescale` of `rust_decimal` on the decimal with the given
/// mantissa and scale, and returns the mantissa that results.
///
/// Claimed of it: scaling down drops digits and rounds on the first dropped
/// digit, half away from zero; scaling up multiplies by ten as often as asked
/// and as 96 bits allow; an equal scale changes nothing.
#[verifier::external_body]
fn rescaled_mantissa(mantissa: i128, scale: u32, target: u32) -> (r: i128)
    requires
        -MAX_MANTISSA <= mantissa <= MAX_MANTISSA,
        scale <= MAX_SCALE,
        target <= MAX_SCALE,
    ensures
        r == rescaled(mantissa as int, scale as nat, target as nat),
{
    let mut decimal = rust_decimal::Decimal::from_i128_with_scale(mantissa, scale);
    decimal.rescale(target);
    decimal.mantissa()
}

/// Calls `Decimal::from_str` of `rust_decimal`.
///
/// Claimed of it: whether and what it parses depends on the text alone, and a
/// parsed decimal has a mantissa of at most 96 bits and a scale of at most 28.
#[verifier::external_body]
fn parse_decimal(text: &str) -> (r: Result<DecimalNumber, rust_decimal::Error>)
    ensures
        r is Ok <==> parsed_decimal(text@) is Some,
        r matches Ok(d) ==> d.representable() && d.is_parse_of(parsed_decimal(text@)),
{
    match text.parse::<rust_decimal::Decimal>() {
        Ok(d) => Ok(DecimalNumber { mantissa: d.mantissa(), scale: d.scale() }),
        Err(e) => Err(e),
    }
}

/// The message of a `rust_decimal` error, by its `Display` impl. Nothing is
/// claimed of the text.
#[verifier::external_body]
fn decimal_error_text(error: &rust_decimal::Error) -> String {
    error.to_string()
}

/// A coordinate with at most six fractional digits is scaled exactly: its
/// microdegree count, where it has one, is the mantissa times a power of ten.
pub proof fn lemma_coordinate_exact(d: DecimalNumber)
    requires
        d.scale <= SCALE,
        d.coordinate() is Some,
    ensures
        d.coordinate() == Some((d.mantissa * pow10((SCALE - d.scale) as nat)) as i64),
        d.microdegrees() == d.mantissa * pow10((SCALE - d.scale) as nat),
{
    lemma_scaled_up_exact(d.mantissa as int, (SCALE - d.scale) as nat);
}

/// Powers of ten are positive.
proof fn lemma_pow10_positive(n: nat)
    ensures
        pow10(n) > 0,
    decreases n,
{
    if n > 0 {
        lemma_pow10_positive((n - 1) as nat);
    }
}

/// Dropping `k` digits rounds to the nearest integer, and a tie away from
/// zero: the magnitude of the result is `(|m| + 10^k / 2) / 10^k`, and the
/// sign is never reversed.
pub proof fn lemma_scaled_down_rounds_half_away(m: int, k: nat)
    requires
        k >= 1,
    ensures
        magnitude(scaled_down(m, k)) == (magnitude(m) + pow10(k) / 2) / pow10(k),
        m >= 0 ==> scaled_down(m, k) >= 0,
        m <= 0 ==> scaled_down(m, k) <= 0,
{
    let unit = pow10((k - 1) as nat);
    lemma_pow10_positive((k - 1) as nat);
    assert(pow10(k) == 10 * unit);
    let a = magnitude(m);
    let kept = a / unit;
    let rest = a % unit;
    lemma_fundamental_div_mod(a, unit);
    assert(0 <= rest < unit);
    assert(kept >= 0) by (nonlinear_arith)
        requires
            a >= 0,
            unit > 0,
            kept == a / unit,
    ;
    let q = kept / 10;
    let digit = kept % 10;
    let rounded = if digit >= 5 {
        q + 1
    } else {
        q
    };
    let left = a + 5 * unit - rounded * (10 * unit);
    assert(unit * kept == 10 * (q * unit) + digit * unit) by (nonlinear_arith)
        requires
            kept == 10 * q + digit,
    ;
    assert(rounded * (10 * unit) == 10 * (rounded * unit)) by (nonlinear_arith);
    assert((q + 1) * unit == q * unit + unit) by (nonlinear_arith);
    assert(0 <= digit * unit <= 9 * unit && (digit >= 5 ==> digit * unit >= 5 * unit) && (digit < 5
        ==> digit * unit <= 4 * unit)) by (nonlinear_arith)
        requires
            0 <= digit <= 9,
            unit > 0,
    ;
    assert(0 <= left < 10 * unit);
    lemma_fundamental_div_mod_converse(a + 5 * unit, 10 * unit, rounded, left);
}

/// Scaling up that ends within 64 bits was never cut short.
proof fn lemma_scaled_up_exact(m: int, k: nat)
    requires
        i64::MIN <= scaled_up(m, k) <= i64::MAX,
    ensures
        scaled_up(m, k) == m * pow10(k),
    decreases k,
{
    if k == 0 || magnitude(m) * 10 > MAX_MANTISSA {
    } else {
        lemma_scaled_up_exact(m * 10, (k - 1) as nat);
        assert(m * 10 * pow10((k - 1) as nat) == m * (10 * pow10((k - 1) as nat)))
            by (nonlinear_arith);
    }
}

} // verus!
