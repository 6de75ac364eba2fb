//! Numbers: the binary64 values that the format's numbers are read as.

use vstd::prelude::*;

verus! {

/// A binary64 (IEEE 754 double precision) number, held as its bit pattern: sign bit, 11
/// exponent bits, 52 fraction bits. In specifications two numbers are the same when their
/// bits are; `==` compares them as IEEE 754 does ([`Binary64::spec_ieee_eq`]).
#[derive(Clone, Copy, Debug)]
pub struct Binary64(pub u64);

impl PartialEq for Binary64 {
    /// IEEE 754 equality (see [`Binary64::spec_ieee_eq`]): a NaN equals nothing, not
    /// even itself, and the two zeros are equal.
    fn eq(&self, other: &Self) -> (r: bool) {
        let a = self.0;
        let b = other.0;
        let a_nan = (a >> 52u64) & 0x7ffu64 == 0x7ffu64 && a & 0xf_ffff_ffff_ffffu64 != 0;
        let b_nan = (b >> 52u64) & 0x7ffu64 == 0x7ffu64 && b & 0xf_ffff_ffff_ffffu64 != 0;
        let zeros = a & 0x7fff_ffff_ffff_ffffu64 == 0 && b & 0x7fff_ffff_ffff_ffffu64 == 0;
        !a_nan && !b_nan && (a == b || zeros)
    }
}

impl vstd::std_specs::cmp::PartialEqSpecImpl for Binary64 {
    open spec fn obeys_eq_spec() -> bool {
        true
    }

    open spec fn eq_spec(&self, other: &Self) -> bool {
        self.spec_ieee_eq(*other)
    }
}

impl Binary64 {
    /// Whether the number is finite: its exponent field is not all ones (neither an
    /// infinity nor a NaN).
    pub open spec fn spec_is_finite(self) -> bool {
        (self.0 >> 52u64) & 0x7ffu64 != 0x7ffu64
    }

    /// Whether the number is finite (see [`Binary64::spec_is_finite`]).
    pub fn is_finite(self) -> (r: bool)
        ensures
            r == self.spec_is_finite(),
    {
        (self.0 >> 52u64) & 0x7ffu64 != 0x7ffu64
    }

    /// Whether the number is a NaN: its exponent field is all ones and its fraction is not
    /// zero.
    pub open spec fn spec_is_nan(self) -> bool {
        (self.0 >> 52u64) & 0x7ffu64 == 0x7ffu64 && self.0 & 0xf_ffff_ffff_ffffu64 != 0
    }

    /// Whether the number is a zero, of either sign.
    pub open spec fn spec_is_zero(self) -> bool {
        self.0 & 0x7fff_ffff_ffff_ffffu64 == 0
    }

    /// IEEE 754 equality, what `==` on binary64 numbers means: neither is a NaN, and the
    /// bits are the same or both are zeros (`0 == -0`).
    pub open spec fn spec_ieee_eq(self, other: Binary64) -> bool {
        !self.spec_is_nan() && !other.spec_is_nan() && (self.0 == other.0 || (self.spec_is_zero()
            && other.spec_is_zero()))
    }

    /// Whether `0 <= x <= 1`: on the bit pattern, the non-negative numbers up to one
    /// (`0x0000_0000_0000_0000` for zero through `0x3ff0_0000_0000_0000` for one, which
    /// binary64 orders as their bits) and negative zero (`0x8000_0000_0000_0000`).
    pub open spec fn spec_in_unit_interval(self) -> bool {
        self.0 <= 0x3ff0_0000_0000_0000u64 || self.0 == 0x8000_0000_0000_0000u64
    }

    /// Whether `0 <= x <= 1` (see [`Binary64::spec_in_unit_interval`]).
    pub fn in_unit_interval(self) -> (r: bool)
        ensures
            r == self.spec_in_unit_interval(),
    {
        self.0 <= 0x3ff0_0000_0000_0000u64 || self.0 == 0x8000_0000_0000_0000u64
    }
}

impl Binary64 {
    /// The sign bit: whether the number is negative (or negative zero).
    pub open spec fn spec_negative(self) -> bool {
        self.0 >> 63u64 == 1
    }

    /// The 11-bit biased exponent field.
    pub open spec fn spec_exponent(self) -> u64 {
        (self.0 >> 52u64) & 0x7ffu64
    }

    /// The 52-bit fraction field.
    pub open spec fn spec_fraction(self) -> u64 {
        self.0 & 0xf_ffff_ffff_ffffu64
    }

    /// The significand as an integer: the fraction, with the hidden leading one for a
    /// normal number. A finite number's magnitude is `significand * 2^(scale - 1075)`.
    pub open spec fn spec_significand(self) -> nat {
        if self.spec_exponent() == 0 {
            self.spec_fraction() as nat
        } else {
            (self.spec_fraction() as nat) + vstd::arithmetic::power2::pow2(52)
        }
    }

    /// The exponent that scales the significand: the biased exponent, and `1` for a
    /// subnormal number.
    pub open spec fn spec_scale(self) -> nat {
        if self.spec_exponent() == 0 {
            1
        } else {
            self.spec_exponent() as nat
        }
    }

    /// Whether `0 <= x <= 1` as numbers: a zero of either sign, or a finite,
    /// non-negative number whose magnitude `significand * 2^(scale - 1075)` is at most
    /// one.
    pub open spec fn spec_between_zero_and_one(self) -> bool {
        ||| self.spec_is_zero()
        ||| {
            &&& !self.spec_negative()
            &&& self.spec_exponent() != 0x7ffu64
            &&& self.spec_significand() * vstd::arithmetic::power2::pow2(self.spec_scale())
                <= vstd::arithmetic::power2::pow2(1075)
        }
    }
}

/// [`Binary64::spec_in_unit_interval`] is `0 <= x <= 1` on the numbers the bits stand
/// for: it holds exactly for the zeros and the finite non-negative numbers whose
/// magnitude is at most one.
pub proof fn lemma_unit_interval_is_numeric(x: Binary64)
    ensures
        x.spec_in_unit_interval() == x.spec_between_zero_and_one(),
{
    let b = x.0;
    let e = x.spec_exponent();
    let f = x.spec_fraction();
    assert(e == (b >> 52u64) & 0x7ffu64);
    assert(f == b & 0xf_ffff_ffff_ffffu64);
    assert(((b >> 52u64) & 0x7ffu64) <= 0x7ffu64 && (b & 0xf_ffff_ffff_ffffu64) < 0x10_0000_0000_0000u64)
        by (bit_vector);
    assert(b >> 63u64 == 0u64 || b >> 63u64 == 1u64) by (bit_vector);
    assert((b <= 0x3ff0_0000_0000_0000u64 || b == 0x8000_0000_0000_0000u64) == ((b & 0x7fff_ffff_ffff_ffffu64
        == 0u64) || (b >> 63u64 == 0u64 && (((b >> 52u64) & 0x7ffu64) < 1023u64 || (((b >> 52u64) & 0x7ffu64)
        == 1023u64 && (b & 0xf_ffff_ffff_ffffu64) == 0u64))))) by (bit_vector);
    vstd::arithmetic::power2::lemma2_to64_rest();
    let p52 = vstd::arithmetic::power2::pow2(52);
    let p1075 = vstd::arithmetic::power2::pow2(1075);
    assert(p52 == 0x10_0000_0000_0000);
    if !x.spec_is_zero() && !x.spec_negative() && e != 0x7ffu64 {
        let sig = x.spec_significand();
        let sc = x.spec_scale();
        let ps = vstd::arithmetic::power2::pow2(sc);
        vstd::arithmetic::power2::lemma_pow2_pos(sc);
        if e < 1023 {
            assert(sig < 2 * p52);
            vstd::arithmetic::power2::lemma_pow2_adds(53, 1022);
            vstd::arithmetic::power2::lemma_pow2_adds(52, 1);
            let p53 = vstd::arithmetic::power2::pow2(53);
            let p1022 = vstd::arithmetic::power2::pow2(1022);
            assert(p53 == 2 * p52) by {
                vstd::arithmetic::power2::lemma_pow2_adds(52, 1);
            }
            if sc < 1022 {
                vstd::arithmetic::power2::lemma_pow2_strictly_increases(sc, 1022);
            }
            assert(ps <= p1022);
            assert(sig * ps < p53 * p1022) by (nonlinear_arith)
                requires
                    sig < p53,
                    0 < ps <= p1022,
            ;
            assert(sig * ps <= p1075);
        } else if e == 1023 {
            vstd::arithmetic::power2::lemma_pow2_adds(52, 1023);
            let p1023 = vstd::arithmetic::power2::pow2(1023);
            assert(sc == 1023);
            assert(sig * p1023 <= p52 * p1023 <==> sig <= p52) by (nonlinear_arith)
                requires
                    p1023 > 0,
            ;
        } else {
            vstd::arithmetic::power2::lemma_pow2_adds(52, 1024);
            vstd::arithmetic::power2::lemma_pow2_strictly_increases(1075, 1076);
            let p1024 = vstd::arithmetic::power2::pow2(1024);
            if sc > 1024 {
                vstd::arithmetic::power2::lemma_pow2_strictly_increases(1024, sc);
            }
            assert(ps >= p1024);
            assert(sig * ps >= p52 * p1024) by (nonlinear_arith)
                requires
                    sig >= p52,
                    ps >= p1024,
                    p52 > 0,
            ;
        }
    }
}

/// `0 <= x <= 1` on the bit patterns of some numbers: `0`, `-0`, `0.5`, `0.8` and `1`
/// are in, `1.5`, `-0.5`, infinity and a NaN are out.
pub proof fn lemma_unit_interval_examples()
    ensures
        Binary64(0x0000_0000_0000_0000).spec_in_unit_interval(),
        Binary64(0x8000_0000_0000_0000).spec_in_unit_interval(),
        Binary64(0x3fe0_0000_0000_0000).spec_in_unit_interval(),
        Binary64(0x3fe9_9999_9999_999a).spec_in_unit_interval(),
        Binary64(0x3ff0_0000_0000_0000).spec_in_unit_interval(),
        !Binary64(0x3ff8_0000_0000_0000).spec_in_unit_interval(),
        !Binary64(0xbfe0_0000_0000_0000).spec_in_unit_interval(),
        !Binary64(0x7ff0_0000_0000_0000).spec_in_unit_interval(),
        !Binary64(0x7ff8_0000_0000_0000).spec_in_unit_interval(),
{
}

/// The bits of the binary64 number that serde_json's `Number::as_f64` gives for the
/// integer `u`.
pub uninterp spec fn u64_as_binary64(u: u64) -> u64;

/// The bits of the binary64 number that serde_json's `Number::as_f64` gives for the
/// integer `i`.
pub uninterp spec fn i64_as_binary64(i: i64) -> u64;

/// `serde_json::Number::from(u).as_f64()`: the integer as the nearest binary64, which is
/// what the format reads an integer-valued JSON number as. Its bits are named
/// [`u64_as_binary64`]; nothing more of them is stated.
#[verifier::external_body]
pub(crate) fn binary64_from_u64(u: u64) -> (r: Binary64)
    ensures
        r.0 == u64_as_binary64(u),
{
    Binary64(serde_json::Number::from(u).as_f64().unwrap_or_default().to_bits())
}

/// `serde_json::Number::from(i).as_f64()` for a negative integer (see
/// [`binary64_from_u64`]). Its bits are named [`i64_as_binary64`].
#[verifier::external_body]
pub(crate) fn binary64_from_i64(i: i64) -> (r: Binary64)
    ensures
        r.0 == i64_as_binary64(i),
{
    Binary64(serde_json::Number::from(i).as_f64().unwrap_or_default().to_bits())
}

} // verus!
