//! Numbers of the language: IEEE-754 binary64 values, held by their bit pattern.
//!
//! Negation, equality and truncation to an index are defined on the bit
//! pattern and verified here. Rounded arithmetic and the reading of decimal
//! literals are done by `rustc_apfloat`, a software implementation of
//! IEEE-754, behind trusted wrappers.

use rustc_apfloat::Float;
use rustc_apfloat::ieee::Double;
use vstd::arithmetic::power2::*;
use vstd::bits::*;
use vstd::prelude::*;

verus! {

/// The sign bit of a binary64 value.
pub const SIGN_MASK: u64 = 0x8000_0000_0000_0000;

/// The eleven exponent bits of a binary64 value.
pub const EXPONENT_MASK: u64 = 0x7ff0_0000_0000_0000;

/// The fifty-two fraction bits of a binary64 value.
pub const FRACTION_MASK: u64 = 0x000f_ffff_ffff_ffff;

/// The exponent bias of binary64.
pub const EXPONENT_BIAS: u64 = 1023;

/// A number of the language: the bit pattern of an IEEE-754 binary64 value.
/// Every bit pattern is a number (NaNs and infinities included).
#[derive(Clone, Copy, Debug)]
pub struct Number {
    pub bits: u64,
}

/// The pattern is a NaN: all exponent bits set and a nonzero fraction.
pub open spec fn is_nan(bits: u64) -> bool {
    bits & EXPONENT_MASK == EXPONENT_MASK && bits & FRACTION_MASK != 0
}

/// The pattern is positive or negative zero.
pub open spec fn is_zero(bits: u64) -> bool {
    bits & !SIGN_MASK == 0
}

/// The pattern has its sign bit set.
pub open spec fn is_negative(bits: u64) -> bool {
    bits & SIGN_MASK != 0
}

/// The pattern is positive or negative infinity: all exponent bits set and
/// a zero fraction.
pub open spec fn is_infinite(bits: u64) -> bool {
    bits & EXPONENT_MASK == EXPONENT_MASK && bits & FRACTION_MASK == 0
}

/// What a quotient by zero is: a NaN where the dividend is a NaN or a
/// zero; else the infinity whose sign is negative exactly where the signs
/// of dividend and divisor differ.
pub open spec fn is_quotient_by_zero(a: u64, b: u64, r: u64) -> bool {
    if is_nan(a) || is_zero(a) {
        is_nan(r)
    } else {
        is_infinite(r) && (is_negative(r) <==> (is_negative(a) != is_negative(b)))
    }
}

/// IEEE-754 equality: a NaN equals nothing, the two zeros are equal, and
/// any other two values are equal when their patterns are.
pub open spec fn ieee_eq(a: u64, b: u64) -> bool {
    !is_nan(a) && !is_nan(b) && (a == b || (is_zero(a) && is_zero(b)))
}

/// IEEE-754 negation: the same pattern with the sign bit flipped.
pub open spec fn ieee_neg(a: u64) -> u64 {
    a ^ SIGN_MASK
}

/// The biased exponent field, 0 to 2047.
pub open spec fn exponent_field(bits: u64) -> nat {
    ((bits & EXPONENT_MASK) >> 52) as nat
}

/// The fraction field, below 2^52.
pub open spec fn fraction_field(bits: u64) -> nat {
    (bits & FRACTION_MASK) as nat
}

/// The integer part of a value that is not NaN, not negative and at least
/// one: with significand `m = 2^52 + fraction` and biased exponent `e` the
/// value is `m * 2^(e - 1075)`.
pub open spec fn integer_part(bits: u64) -> nat {
    let e = exponent_field(bits);
    let m = pow2(52) + fraction_field(bits);
    if e <= 1075 {
        m / pow2((1075 - e) as nat)
    } else {
        m * pow2((e - 1075) as nat)
    }
}

/// The value truncated toward zero and clamped to the range of `usize`,
/// for a value that truncates to zero or more: values below one give 0,
/// values too large, infinity included, give `usize::MAX`. (It is 0 also
/// where the value is NaN or negative.)
pub open spec fn clamped_floor(bits: u64) -> nat {
    if is_nan(bits) || is_negative(bits) || exponent_field(bits) < EXPONENT_BIAS {
        0
    } else if integer_part(bits) > usize::MAX {
        usize::MAX as nat
    } else {
        integer_part(bits)
    }
}

/// The value truncated toward zero is below zero: the number is negative
/// and its magnitude is one or more (minus infinity included).
pub open spec fn truncates_below_zero(bits: u64) -> bool {
    !is_nan(bits) && is_negative(bits) && exponent_field(bits) >= EXPONENT_BIAS
}

/// The index that a number stands for: its value truncated toward zero,
/// clamped to the range of `usize`. A number that truncates below zero
/// stands for no index. (NaN stands for index 0.)
pub open spec fn index_of(bits: u64) -> Option<nat> {
    if truncates_below_zero(bits) {
        None
    } else {
        Some(clamped_floor(bits))
    }
}

/// What `rustc_apfloat` returns for the sum of two binary64 values, rounded
/// to nearest, ties to even.
pub uninterp spec fn double_sum(a: u64, b: u64) -> u64;

/// What `rustc_apfloat` returns for the difference of two binary64 values.
pub uninterp spec fn double_difference(a: u64, b: u64) -> u64;

/// What `rustc_apfloat` returns for the product of two binary64 values.
pub uninterp spec fn double_product(a: u64, b: u64) -> u64;

/// What `rustc_apfloat` returns for the quotient of two binary64 values.
pub uninterp spec fn double_quotient(a: u64, b: u64) -> u64;

/// What `rustc_apfloat` returns for the remainder of two binary64 values
/// (C `fmod`: the sign follows the dividend).
pub uninterp spec fn double_remainder(a: u64, b: u64) -> u64;

/// What `rustc_apfloat` reads from a decimal literal, or `None` where it
/// rejects the text.
pub uninterp spec fn decimal_value(text: Seq<char>) -> Option<u64>;

/// Calls `Add::add` of `rustc_apfloat::ieee::Double` (`add_r` with
/// `Round::NearestTiesToEven`) on the two patterns. The result is a function
/// of the two arguments; the contract gives it its name and claims no more.
#[verifier::external_body]
fn apfloat_add(a: u64, b: u64) -> (r: u64)
    ensures
        r == double_sum(a, b),
{
    (Double::from_bits(a as u128) + Double::from_bits(b as u128)).value.to_bits() as u64
}

/// Calls `Sub::sub` of `rustc_apfloat::ieee::Double` on the two patterns and
/// names the result.
#[verifier::external_body]
fn apfloat_sub(a: u64, b: u64) -> (r: u64)
    ensures
        r == double_difference(a, b),
{
    (Double::from_bits(a as u128) - Double::from_bits(b as u128)).value.to_bits() as u64
}

/// Calls `Mul::mul` of `rustc_apfloat::ieee::Double` on the two patterns and
/// names the result.
#[verifier::external_body]
fn apfloat_mul(a: u64, b: u64) -> (r: u64)
    ensures
        r == double_product(a, b),
{
    (Double::from_bits(a as u128) * Double::from_bits(b as u128)).value.to_bits() as u64
}

/// Calls `Div::div` of `rustc_apfloat::ieee::Double` (`div_r`) on the two
/// patterns and names the result. Division by zero is no failure there:
/// `div_r` gives a NaN for a NaN or a zero divided by zero, and else the
/// infinity with the sign of the dividend, turned round where the divisor
/// is negative.
#[verifier::external_body]
fn apfloat_div(a: u64, b: u64) -> (r: u64)
    ensures
        r == double_quotient(a, b),
        is_zero(b) ==> is_quotient_by_zero(a, b, r),
{
    (Double::from_bits(a as u128) / Double::from_bits(b as u128)).value.to_bits() as u64
}

/// Calls `Rem::rem` of `rustc_apfloat::ieee::Double`, which is `c_fmod`, on
/// the two patterns and names the result.
#[verifier::external_body]
fn apfloat_rem(a: u64, b: u64) -> (r: u64)
    ensures
        r == double_remainder(a, b),
{
    (Double::from_bits(a as u128) % Double::from_bits(b as u128)).value.to_bits() as u64
}

/// Calls `FromStr::from_str` of `rustc_apfloat::ieee::Double` (`from_str_r`
/// with `Round::NearestTiesToEven`) and names the result: the pattern read,
/// or `None` where the call returns its `ParseError`.
#[verifier::external_body]
fn apfloat_parse(text: &str) -> (r: Option<u64>)
    ensures
        r == decimal_value(text@),
{
    match text.parse::<Double>() {
        Ok(d) => Some(d.to_bits() as u64),
        Err(_) => None,
    }
}

impl Number {
    /// The number with the given bit pattern.
    pub fn from_bits(bits: u64) -> (r: Number)
        ensures
            r.bits == bits,
    {
        Number { bits }
    }

    /// The bit pattern of the number.
    pub fn to_bits(self) -> (r: u64)
        ensures
            r == self.bits,
    {
        self.bits
    }

    /// Whether the number is a NaN.
    pub fn is_nan(self) -> (r: bool)
        ensures
            r == is_nan(self.bits),
    {
        self.bits & EXPONENT_MASK == EXPONENT_MASK && self.bits & FRACTION_MASK != 0
    }

    /// IEEE-754 negation.
    pub fn negated(self) -> (r: Number)
        ensures
            r.bits == ieee_neg(self.bits),
    {
        Number { bits: self.bits ^ SIGN_MASK }
    }

    /// IEEE-754 equality.
    pub fn ieee_eq(self, other: Number) -> (r: bool)
        ensures
            r == ieee_eq(self.bits, other.bits),
    {
        if self.is_nan() || other.is_nan() {
            false
        } else if self.bits == other.bits {
            true
        } else {
            self.bits & !SIGN_MASK == 0 && other.bits & !SIGN_MASK == 0
        }
    }

    /// The sum, rounded to nearest.
    pub fn sum(self, other: Number) -> (r: Number)
        ensures
            r.bits == double_sum(self.bits, other.bits),
    {
        Number { bits: apfloat_add(self.bits, other.bits) }
    }

    /// The difference, rounded to nearest.
    pub fn difference(self, other: Number) -> (r: Number)
        ensures
            r.bits == double_difference(self.bits, other.bits),
    {
        Number { bits: apfloat_sub(self.bits, other.bits) }
    }

    /// The product, rounded to nearest.
    pub fn product(self, other: Number) -> (r: Number)
        ensures
            r.bits == double_product(self.bits, other.bits),
    {
        Number { bits: apfloat_mul(self.bits, other.bits) }
    }

    /// The quotient, rounded to nearest. A quotient by zero is no failure:
    /// it is an infinity or a NaN.
    pub fn quotient(self, other: Number) -> (r: Number)
        ensures
            r.bits == double_quotient(self.bits, other.bits),
            is_zero(other.bits) ==> is_quotient_by_zero(self.bits, other.bits, r.bits),
    {
        Number { bits: apfloat_div(self.bits, other.bits) }
    }

    /// The remainder of the division truncated toward zero.
    pub fn remainder(self, other: Number) -> (r: Number)
        ensures
            r.bits == double_remainder(self.bits, other.bits),
    {
        Number { bits: apfloat_rem(self.bits, other.bits) }
    }

    /// Reads a decimal literal.
    pub fn parse(text: &str) -> (r: Option<Number>)
        ensures
            match r {
                Some(n) => decimal_value(text@) == Some(n.bits),
                None => decimal_value(text@).is_none(),
            },
    {
        match apfloat_parse(text) {
            Some(bits) => Some(Number { bits }),
            None => None,
        }
    }

    /// The index that the number stands for, or `None` for a number that
    /// truncates below zero.
    pub fn to_index(self) -> (r: Option<usize>)
        ensures
            match r {
                Some(at) => index_of(self.bits) == Some(at as nat),
                None => index_of(self.bits).is_none(),
            },
    {
        let bits = self.bits;
        let e: u64 = (bits & EXPONENT_MASK) >> 52;
        if bits & SIGN_MASK != 0 && !self.is_nan() && e >= EXPONENT_BIAS {
            None
        } else {
            Some(self.clamped_floor())
        }
    }

    /// The value truncated toward zero and clamped to the range of `usize`.
    fn clamped_floor(self) -> (r: usize)
        ensures
            r == clamped_floor(self.bits),
    {
        let bits = self.bits;
        let e: u64 = (bits & EXPONENT_MASK) >> 52;
        let f: u64 = bits & FRACTION_MASK;
        assert(e <= 2047 && f < 0x10_0000_0000_0000 && (e == 2047 <==> bits & EXPONENT_MASK
            == EXPONENT_MASK)) by (bit_vector)
            requires
                e == (bits & EXPONENT_MASK) >> 52,
                f == bits & FRACTION_MASK,
        ;
        if bits & SIGN_MASK != 0 || (e == 2047 && f != 0) || e < EXPONENT_BIAS {
            return 0;
        }
        proof {
            lemma2_to64();
            lemma2_to64_rest();
        }
        if e >= 1087 {
            proof {
                lemma_integer_part_large(bits);
            }
            return usize::MAX;
        }
        let m: u64 = f | 0x10_0000_0000_0000;
        assert(m == f + 0x10_0000_0000_0000) by (bit_vector)
            requires
                m == f | 0x10_0000_0000_0000,
                f < 0x10_0000_0000_0000,
        ;
        let v: u64 = if e <= 1075 {
            let shift: u64 = 1075 - e;
            proof {
                lemma_u64_shr_is_div(m, shift);
            }
            m >> shift
        } else {
            let shift: u64 = e - 1075;
            proof {
                if shift < 11 {
                    lemma_pow2_strictly_increases(shift as nat, 11);
                }
                lemma_pow2_pos(shift as nat);
                assert(m * pow2(shift as nat) <= u64::MAX) by (nonlinear_arith)
                    requires
                        m < 0x20_0000_0000_0000,
                        0 < pow2(shift as nat) <= 2048,
                ;
                lemma_u64_shl_is_mul(m, shift);
            }
            m << shift
        };
        assert(v == integer_part(bits));
        if v > usize::MAX as u64 {
            usize::MAX
        } else {
            v as usize
        }
    }
}

/// A value whose exponent is 64 or more is at least 2^64.
proof fn lemma_integer_part_large(bits: u64)
    requires
        exponent_field(bits) >= 1087,
    ensures
        integer_part(bits) > u64::MAX,
{
    let e = exponent_field(bits);
    let k = (e - 1075) as nat;
    lemma2_to64();
    lemma2_to64_rest();
    if k > 12 {
        lemma_pow2_strictly_increases(12, k);
    }
    assert(pow2(k) >= 4096);
    assert((pow2(52) + fraction_field(bits)) * pow2(k) >= pow2(52) * 4096) by (nonlinear_arith)
        requires
            pow2(k) >= 4096,
            fraction_field(bits) >= 0,
            pow2(52) > 0,
    ;
}

} // verus!
