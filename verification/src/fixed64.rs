//! Fixed-point numbers over a 64-bit mantissa. Products and scaled dividends
//! are formed in 128 bits, where they cannot overflow.
use vstd::prelude::*;
use vstd::arithmetic::div_mod::lemma_fundamental_div_mod;
use vstd::arithmetic::div_mod::lemma_fundamental_div_mod_converse;
use vstd::arithmetic::div_mod::lemma_mod_bound;
use vstd::std_specs::cmp::PartialEqSpecImpl;
use vstd::std_specs::cmp::PartialOrdSpecImpl;
use vstd::string::StringSliceAdditionalSpecFns;
use std::cmp::Ordering;
use crate::arith::clamp;
use crate::arith::decimal_shift_within;
use crate::arith::div_floor;
use crate::arith::div_nearest;
use crate::arith::div_round;
use crate::arith::div_trunc;
use crate::arith::lemma_div_of_negation;
use crate::arith::lemma_div_round_shrinks;
use crate::arith::lemma_div_trunc_odd;
use crate::arith::lemma_next_pow10_is_least;
use crate::arith::lemma_pow10_18;
use crate::arith::lemma_pow10_from_grows;
use crate::arith::lemma_pow10_increases;
use crate::arith::lemma_rounding_bracket;
use crate::arith::lemma_rounding_of_trunc;
use crate::arith::lemma_signed_next_pow10_odd;
use crate::arith::magnitude;
use crate::arith::next_pow10;
use crate::arith::ok_view;
use crate::arith::pow10;
use crate::arith::pow10_from;
use crate::arith::pow10_u128;
use crate::arith::RoundMode;
use crate::arith::shift_decimal;
use crate::arith::signed_next_pow10;
use crate::errors::ArithmeticError;
use crate::errors::ConvertError;
use crate::text::ascii_string;
use crate::text::format_decimal;
use crate::text::format_signed;
use crate::text::is_ascii_bytes;
use crate::text::lemma_format_then_parse_signed;
use crate::text::parse_decimal;
use crate::text::parse_signed;

verus! {

/// `v` where it is a 64-bit value, `Overflow` where it is not.
pub open spec fn checked_i64(v: int) -> Result<int, ArithmeticError> {
    if i64::MIN <= v <= i64::MAX {
        Ok(v)
    } else {
        Err(ArithmeticError::Overflow)
    }
}

/// `v` as a 64-bit integer, `Overflow` where it is none.
pub open spec fn narrow_i64(v: int) -> Result<i64, ArithmeticError> {
    if i64::MIN <= v <= i64::MAX {
        Ok(v as i64)
    } else {
        Err(ArithmeticError::Overflow)
    }
}

/// The magnitude of a 128-bit number other than the least one.
fn unsigned_abs(x: i128) -> (r: u128)
    requires
        x > i128::MIN,
    ensures
        r == magnitude(x as int),
{
    if x < 0 {
        (-x) as u128
    } else {
        x as u128
    }
}

/// The quotient of two 128-bit numbers, rounded in the direction `mode` and
/// narrowed to 64 bits. The quotient of the magnitudes is taken first and then
/// moved one step away from zero where the division is inexact and `mode`
/// points away from zero for the sign of the quotient.
fn rdiv_wide(n: i128, d: i128, mode: RoundMode) -> (r: Result<i64, ArithmeticError>)
    requires
        d != 0,
        n > i128::MIN,
        d > i128::MIN,
    ensures
        r == narrow_i64(div_round(n as int, d as int, mode)),
{
    let negative = (n < 0) != (d < 0);
    let an = unsigned_abs(n);
    let ad = unsigned_abs(d);
    let q: u128 = an / ad;
    let inexact = an % ad != 0;
    let away = inexact && match mode {
        RoundMode::Ceil => !negative,
        RoundMode::Floor => negative,
    };
    proof {
        lemma_rounding_of_trunc(n as int, d as int);
        vstd::arithmetic::div_mod::lemma_div_nonincreasing(an as int, ad as int);
    }
    let m: u128 = if away { q + 1 } else { q };
    if negative {
        if m > 0x8000_0000_0000_0000u128 {
            Err(ArithmeticError::Overflow)
        } else {
            Ok((-(m as i128)) as i64)
        }
    } else {
        if m > 0x7fff_ffff_ffff_ffffu128 {
            Err(ArithmeticError::Overflow)
        } else {
            Ok(m as i64)
        }
    }
}

/// The quotient of two 64-bit integers, rounded in the direction `mode`.
pub fn rdiv_i64(numerator: i64, denominator: i64, mode: RoundMode) -> (r: Result<
    i64,
    ArithmeticError,
>)
    ensures
        denominator == 0 ==> r == Err::<i64, ArithmeticError>(ArithmeticError::DivisionByZero),
        denominator != 0 ==> r == narrow_i64(
            div_round(numerator as int, denominator as int, mode),
        ),
{
    if denominator == 0 {
        return Err(ArithmeticError::DivisionByZero);
    }
    rdiv_wide(numerator as i128, denominator as i128, mode)
}

/// A decimal number with `P` digits after the point, held as the 64-bit
/// integer `value * 10^P`.
#[derive(Clone, Copy, Debug)]
pub struct FixedPoint64<const P: u32> {
    inner: i64,
}

impl<const P: u32> View for FixedPoint64<P> {
    type V = int;

    /// The mantissa: the number times `10^P`.
    closed spec fn view(&self) -> int {
        self.inner as int
    }
}

impl<const P: u32> PartialEq for FixedPoint64<P> {
    fn eq(&self, other: &Self) -> (r: bool) {
        self.inner == other.inner
    }
}

impl<const P: u32> Eq for FixedPoint64<P> {

}

impl<const P: u32> PartialEqSpecImpl for FixedPoint64<P> {
    open spec fn obeys_eq_spec() -> bool {
        true
    }

    open spec fn eq_spec(&self, other: &Self) -> bool {
        self@ == other@
    }
}

impl<const P: u32> PartialOrd for FixedPoint64<P> {
    fn partial_cmp(&self, other: &Self) -> (r: Option<Ordering>) {
        if self.inner < other.inner {
            Some(Ordering::Less)
        } else if self.inner > other.inner {
            Some(Ordering::Greater)
        } else {
            Some(Ordering::Equal)
        }
    }
}

impl<const P: u32> PartialOrdSpecImpl for FixedPoint64<P> {
    open spec fn obeys_partial_cmp_spec() -> bool {
        true
    }

    /// Values are ordered as their mantissas.
    open spec fn partial_cmp_spec(&self, other: &Self) -> Option<Ordering> {
        if self@ < other@ {
            Some(Ordering::Less)
        } else if self@ > other@ {
            Some(Ordering::Greater)
        } else {
            Some(Ordering::Equal)
        }
    }
}

impl<const P: u32> FixedPoint64<P> {
    /// Whether `10^P` fits into the mantissa, as every operation that scales asks.
    pub open spec fn valid() -> bool {
        P <= 18
    }

    /// The scale `10^P`: the mantissa of one.
    pub open spec fn coef_int() -> int {
        pow10(P as nat)
    }

    /// The scale lies between 1 and `10^18`.
    pub proof fn lemma_coef_range()
        requires
            Self::valid(),
        ensures
            1 <= Self::coef_int() <= 1_000_000_000_000_000_000,
    {
        lemma_pow10_increases(0, P as nat);
        lemma_pow10_increases(P as nat, 18);
        lemma_pow10_18();
    }

    /// The number of digits after the point.
    pub fn precision() -> (r: u32)
        ensures
            r == P,
    {
        P
    }

    /// The scale `10^P`.
    pub fn coef() -> (r: i64)
        requires
            Self::valid(),
        ensures
            r == Self::coef_int(),
            r >= 1,
    {
        proof {
            Self::lemma_coef_range();
        }
        pow10_u128(P) as i64
    }

    /// The value with the mantissa `bits`.
    pub fn from_bits(bits: i64) -> (r: Self)
        ensures
            r@ == bits,
    {
        FixedPoint64 { inner: bits }
    }

    /// The mantissa.
    pub fn into_bits(self) -> (r: i64)
        ensures
            r == self@,
    {
        self.inner
    }

    /// The mantissa.
    pub fn as_bits(&self) -> (r: i64)
        ensures
            r == self@,
    {
        self.inner
    }

    /// Zero.
    pub fn zero() -> (r: Self)
        ensures
            r@ == 0,
    {
        Self::from_bits(0)
    }

    /// One.
    pub fn one() -> (r: Self)
        requires
            Self::valid(),
        ensures
            r@ == Self::coef_int(),
    {
        Self::from_bits(Self::coef())
    }

    /// The smallest positive value, `10^-P`.
    pub fn epsilon() -> (r: Self)
        ensures
            r@ == 1,
    {
        Self::from_bits(1)
    }

    /// The greatest value.
    pub fn max_value() -> (r: Self)
        ensures
            r@ == i64::MAX,
    {
        Self::from_bits(i64::MAX)
    }

    /// The least value.
    pub fn min_value() -> (r: Self)
        ensures
            r@ == i64::MIN,
    {
        Self::from_bits(i64::MIN)
    }

    /// The integer `x` as a fixed-point value, or `Overflow`.
    pub fn try_from(x: i64) -> (r: Result<Self, ArithmeticError>)
        requires
            Self::valid(),
        ensures
            ok_view(r) == checked_i64(x * Self::coef_int()),
    {
        match x.checked_mul(Self::coef()) {
            Some(v) => Ok(Self::from_bits(v)),
            None => Err(ArithmeticError::Overflow),
        }
    }

    /// Checked addition.
    pub fn cadd(self, rhs: Self) -> (r: Result<Self, ArithmeticError>)
        ensures
            ok_view(r) == checked_i64(self@ + rhs@),
    {
        match self.inner.checked_add(rhs.inner) {
            Some(v) => Ok(Self::from_bits(v)),
            None => Err(ArithmeticError::Overflow),
        }
    }

    /// Checked subtraction.
    pub fn csub(self, rhs: Self) -> (r: Result<Self, ArithmeticError>)
        ensures
            ok_view(r) == checked_i64(self@ - rhs@),
    {
        match self.inner.checked_sub(rhs.inner) {
            Some(v) => Ok(Self::from_bits(v)),
            None => Err(ArithmeticError::Overflow),
        }
    }

    /// Checked multiplication by an integer. The product is exact.
    pub fn cmul(self, rhs: i64) -> (r: Result<Self, ArithmeticError>)
        ensures
            ok_view(r) == checked_i64(self@ * rhs),
    {
        match self.inner.checked_mul(rhs) {
            Some(v) => Ok(Self::from_bits(v)),
            None => Err(ArithmeticError::Overflow),
        }
    }

    /// Checked negation: only the least value has none.
    pub fn cneg(self) -> (r: Result<Self, ArithmeticError>)
        ensures
            ok_view(r) == checked_i64(-self@),
    {
        if self.inner == i64::MIN {
            Err(ArithmeticError::Overflow)
        } else {
            Ok(Self::from_bits(-self.inner))
        }
    }

    /// The sum, or the bound of the range that the sum lies beyond.
    pub fn saturating_add(self, rhs: Self) -> (r: Self)
        ensures
            r@ == clamp(self@ + rhs@, i64::MIN as int, i64::MAX as int),
    {
        match self.inner.checked_add(rhs.inner) {
            Some(v) => Self::from_bits(v),
            None => if rhs.inner < 0 {
                Self::min_value()
            } else {
                Self::max_value()
            },
        }
    }

    /// The difference, or the bound of the range that it lies beyond.
    pub fn saturating_sub(self, rhs: Self) -> (r: Self)
        ensures
            r@ == clamp(self@ - rhs@, i64::MIN as int, i64::MAX as int),
    {
        match self.inner.checked_sub(rhs.inner) {
            Some(v) => Self::from_bits(v),
            None => if rhs.inner > 0 {
                Self::min_value()
            } else {
                Self::max_value()
            },
        }
    }

    /// The product with an integer, or the bound of the range that it lies beyond.
    pub fn saturating_mul(self, rhs: i64) -> (r: Self)
        ensures
            r@ == clamp(self@ * rhs, i64::MIN as int, i64::MAX as int),
    {
        match self.inner.checked_mul(rhs) {
            Some(v) => Self::from_bits(v),
            None => {
                proof {
                    let a = self.inner as int;
                    let b = rhs as int;
                    assert((((a < 0) == (b < 0)) ==> a * b >= 0) && (((a < 0) != (b < 0)) ==> a
                        * b <= 0)) by (nonlinear_arith);
                }
                if (self.inner < 0) == (rhs < 0) {
                    Self::max_value()
                } else {
                    Self::min_value()
                }
            },
        }
    }

    /// The product rounded in the direction `mode`, or `Overflow` where the
    /// rounded product is out of range.
    pub fn rmul(self, rhs: Self, mode: RoundMode) -> (r: Result<Self, ArithmeticError>)
        requires
            Self::valid(),
        ensures
            ok_view(r) == checked_i64(div_round(self@ * rhs@, Self::coef_int(), mode)),
    {
        let x = self.inner as i128;
        let y = rhs.inner as i128;
        proof {
            assert(-0x4000_0000_0000_0000_0000_0000_0000_0000 <= x * y
                <= 0x4000_0000_0000_0000_0000_0000_0000_0000) by (nonlinear_arith)
                requires
                    -0x8000_0000_0000_0000 <= x <= 0x7fff_ffff_ffff_ffff,
                    -0x8000_0000_0000_0000 <= y <= 0x7fff_ffff_ffff_ffff,
            ;
        }
        match rdiv_wide(x * y, Self::coef() as i128, mode) {
            Ok(v) => Ok(Self::from_bits(v)),
            Err(e) => Err(e),
        }
    }

    /// The product rounded in the direction `mode`, or the bound of the range
    /// that the rounded product lies beyond.
    pub fn saturating_rmul(self, rhs: Self, mode: RoundMode) -> (r: Self)
        requires
            Self::valid(),
        ensures
            r@ == clamp(
                div_round(self@ * rhs@, Self::coef_int(), mode),
                i64::MIN as int,
                i64::MAX as int,
            ),
    {
        match self.rmul(rhs, mode) {
            Ok(v) => v,
            Err(_) => {
                proof {
                    let a = self.inner as int;
                    let b = rhs.inner as int;
                    assert((((a < 0) == (b < 0)) ==> a * b >= 0) && (((a < 0) != (b < 0)) ==> a
                        * b <= 0)) by (nonlinear_arith);
                    Self::lemma_coef_range();
                    lemma_div_round_shrinks(a * b, Self::coef_int(), mode);
                }
                if (self.inner < 0) == (rhs.inner < 0) {
                    Self::max_value()
                } else {
                    Self::min_value()
                }
            },
        }
    }

    /// The quotient rounded in the direction `mode`. The dividend is scaled
    /// by `10^P` before it is divided, so that no digit is lost.
    pub fn rdiv(self, rhs: Self, mode: RoundMode) -> (r: Result<Self, ArithmeticError>)
        requires
            Self::valid(),
        ensures
            rhs@ == 0 ==> r == Err::<Self, ArithmeticError>(ArithmeticError::DivisionByZero),
            rhs@ != 0 ==> ok_view(r) == checked_i64(
                div_round(self@ * Self::coef_int(), rhs@, mode),
            ),
    {
        if rhs.inner == 0 {
            return Err(ArithmeticError::DivisionByZero);
        }
        let x = self.inner as i128;
        let c = Self::coef() as i128;
        proof {
            Self::lemma_coef_range();
            assert(-0x4000_0000_0000_0000_0000_0000_0000_0000 <= x * c
                <= 0x4000_0000_0000_0000_0000_0000_0000_0000) by (nonlinear_arith)
                requires
                    -0x8000_0000_0000_0000 <= x <= 0x7fff_ffff_ffff_ffff,
                    1 <= c <= 0x7fff_ffff_ffff_ffff,
            ;
        }
        match rdiv_wide(x * c, rhs.inner as i128, mode) {
            Ok(v) => Ok(Self::from_bits(v)),
            Err(e) => Err(e),
        }
    }

    /// The quotient by an integer, rounded in the direction `mode`.
    pub fn rdiv_int(self, rhs: i64, mode: RoundMode) -> (r: Result<Self, ArithmeticError>)
        ensures
            rhs == 0 ==> r == Err::<Self, ArithmeticError>(ArithmeticError::DivisionByZero),
            rhs != 0 ==> ok_view(r) == checked_i64(div_round(self@, rhs as int, mode)),
    {
        match rdiv_i64(self.inner, rhs, mode) {
            Ok(v) => Ok(Self::from_bits(v)),
            Err(e) => Err(e),
        }
    }

    /// The mean of two values, rounded towards negative infinity. The sum is
    /// formed in 128 bits.
    pub fn half_sum(a: Self, b: Self) -> (r: Self)
        ensures
            r@ == div_floor(a@ + b@, 2),
    {
        let s: i128 = a.inner as i128 + b.inner as i128;
        let q: i128 = s / 2;
        let odd = s % 2 != 0;
        proof {
            if s < 0 {
                lemma_div_of_negation(-s as int, 2);
            }
            lemma_fundamental_div_mod(s as int, 2);
            lemma_mod_bound(s as int, 2);
        }
        let h: i128 = if s < 0 && odd { q - 1 } else { q };
        Self::from_bits(h as i64)
    }

    /// The integer part, rounded in the direction `mode`.
    pub fn integral(self, mode: RoundMode) -> (r: i64)
        requires
            Self::valid(),
        ensures
            r == div_round(self@, Self::coef_int(), mode),
    {
        let c = Self::coef();
        let q: i64 = self.inner / c;
        let inexact = self.inner % c != 0;
        proof {
            lemma_rounding_of_trunc(self.inner as int, c as int);
            lemma_div_round_shrinks(self.inner as int, c as int, mode);
        }
        match mode {
            RoundMode::Ceil => if inexact && self.inner > 0 { q + 1 } else { q },
            RoundMode::Floor => if inexact && self.inner < 0 { q - 1 } else { q },
        }
    }

    /// The multiple of `unit` next to the value on the side of zero.
    pub fn round_towards_zero_by(self, unit: Self) -> (r: Self)
        requires
            unit@ != 0,
        ensures
            r@ == div_trunc(self@, unit@) * unit@,
    {
        let ax: u128 = unsigned_abs(self.inner as i128);
        let au: u128 = unsigned_abs(unit.inner as i128);
        let q: u128 = ax / au;
        proof {
            lemma_fundamental_div_mod(ax as int, au as int);
            lemma_mod_bound(ax as int, au as int);
            assert(au * q == q * au) by (nonlinear_arith);
            let t = div_trunc(self@, unit@);
            assert(t * unit@ == (if self@ < 0 { -(q * au) } else { q * au })) by (nonlinear_arith)
                requires
                    t == (if (self@ < 0) == (unit@ < 0) { q as int } else { -q }),
                    au == magnitude(unit@),
                    unit@ != 0,
                    self@ == 0 ==> q == 0,
            ;
            if self@ == 0 {
                vstd::arithmetic::div_mod::lemma_div_pos_is_pos(ax as int, au as int);
                vstd::arithmetic::div_mod::lemma_div_nonincreasing(ax as int, au as int);
            }
        }
        let m: u128 = q * au;
        if self.inner < 0 {
            Self::from_bits((-(m as i128)) as i64)
        } else {
            Self::from_bits(m as i64)
        }
    }

    /// The least power of ten that is no nearer to zero than the value, with
    /// the sign of the value; zero gives the smallest positive value.
    /// `Overflow` where that power of ten is out of range.
    pub fn next_power_of_ten(self) -> (r: Result<Self, ArithmeticError>)
        ensures
            ok_view(r) == checked_i64(signed_next_pow10(self@)),
    {
        let m: u128 = unsigned_abs(self.inner as i128);
        let mut p: u128 = 1;
        let mut k: u32 = 0;
        proof {
            lemma_pow10_18();
        }
        while p < m
            invariant
                k <= 18,
                p == pow10(k as nat),
                pow10_from(p as int, m as int) == next_pow10(m as int),
                m == magnitude(self@),
                pow10(18) == 1_000_000_000_000_000_000,
            decreases 18 - k,
        {
            if k == 18 {
                proof {
                    assert(pow10_from(p as int, m as int) == pow10_from(10 * p, m as int));
                    lemma_pow10_from_grows(10 * p, m as int);
                }
                return Err(ArithmeticError::Overflow);
            }
            proof {
                lemma_pow10_increases((k + 1) as nat, 18);
            }
            p = p * 10;
            k = k + 1;
        }
        proof {
            lemma_pow10_increases(k as nat, 18);
        }
        if self.inner < 0 {
            Ok(Self::from_bits((-(p as i128)) as i64))
        } else {
            Ok(Self::from_bits(p as i64))
        }
    }

    /// The nearest integer; a tie goes away from zero.
    pub fn rounding_to_i64(self) -> (r: i64)
        requires
            Self::valid(),
        ensures
            r == div_nearest(self@, Self::coef_int()),
    {
        let c: u128 = Self::coef() as u128;
        let a: u128 = unsigned_abs(self.inner as i128);
        let q: u128 = a / c;
        let rem: u128 = a % c;
        let up = rem >= c - rem;
        let m: u128 = if up { q + 1 } else { q };
        proof {
            let e: int = if up { 1 } else { 0 };
            lemma_fundamental_div_mod(a as int, c as int);
            lemma_mod_bound(a as int, c as int);
            vstd::arithmetic::div_mod::lemma_div_nonincreasing(a as int, c as int);
            assert(2 * a + c == (q + e) * (2 * c) + (2 * rem + c - 2 * c * e)) by (nonlinear_arith)
                requires
                    a == c * q + rem,
            ;
            lemma_fundamental_div_mod_converse(
                2 * a + c,
                2 * c,
                q + e,
                2 * rem + c - 2 * c * e,
            );
            if up {
                // a tie or more needs a scale of at least two, so the quotient is at most half
                assert(c >= 2);
                assert(2 * q <= a) by (nonlinear_arith)
                    requires
                        a == c * q + rem,
                        c >= 2,
                        rem >= 0,
                        q >= 0,
                ;
            }
        }
        if self.inner < 0 {
            (-(m as i128)) as i64
        } else {
            m as i64
        }
    }
}

impl<const P: u32> FixedPoint64<P> {
    /// The value `mantissa * 10^exponent`, where the type holds it exactly.
    pub fn from_decimal(mantissa: i64, exponent: i32) -> (r: Result<Self, ConvertError>)
        ensures
            ok_view(r) == decimal_shift_within(
                mantissa as int,
                exponent + P,
                i64::MIN as int,
                i64::MAX as int,
            ),
    {
        match shift_decimal(mantissa as i128, exponent as i64 + P as i64) {
            Err(e) => Err(e),
            Ok(v) => if v < i64::MIN as i128 || v > i64::MAX as i128 {
                Err(ConvertError::Overflow)
            } else {
                Ok(Self::from_bits(v as i64))
            },
        }
    }

    /// Reads the value from decimal text: an optional sign, digits, and then
    /// nothing or a point and at most `P` digits.
    pub fn parse_bytes(s: &[u8]) -> (r: Result<Self, ConvertError>)
        requires
            Self::valid(),
        ensures
            ok_view(r) == parse_signed(s@, P as nat, i64::MIN as int, i64::MAX as int),
    {
        match parse_decimal(s, P, 0x8000_0000_0000_0000u128) {
            Err(e) => Err(e),
            Ok((negative, m)) => if negative {
                Ok(Self::from_bits((-(m as i128)) as i64))
            } else if m > 0x7fff_ffff_ffff_ffffu128 {
                Err(ConvertError::Overflow)
            } else {
                Ok(Self::from_bits(m as i64))
            },
        }
    }

    /// Reads the value from decimal text.
    pub fn from_str(s: &str) -> (r: Result<Self, ConvertError>)
        requires
            Self::valid(),
        ensures
            ok_view(r) == parse_signed(s.spec_bytes(), P as nat, i64::MIN as int, i64::MAX as int),
    {
        Self::parse_bytes(s.as_bytes())
    }

    /// The value as decimal text, with one digit or more after the point.
    pub fn to_bytes(&self) -> (r: Vec<u8>)
        requires
            Self::valid(),
        ensures
            r@ == format_signed(self@, P as nat),
            is_ascii_bytes(r@),
    {
        format_decimal(self.inner < 0, unsigned_abs(self.inner as i128), P)
    }

    /// The value as decimal text, with one digit or more after the point.
    pub fn to_string(&self) -> (r: String)
        requires
            Self::valid(),
        ensures
            r@ == Seq::new(
                format_signed(self@, P as nat).len(),
                |i: int| format_signed(self@, P as nat)[i] as char,
            ),
    {
        ascii_string(self.to_bytes())
    }
}

/// Checked multiplication of an integer by a fixed-point value: `rhs.cmul(lhs)`.
pub fn cmul_i64<const P: u32>(lhs: i64, rhs: FixedPoint64<P>) -> (r: Result<FixedPoint64<P>, ArithmeticError>)
    ensures
        ok_view(r) == checked_i64(lhs * rhs@),
{
    proof {
        assert(lhs * rhs@ == rhs@ * lhs) by (nonlinear_arith);
    }
    rhs.cmul(lhs)
}

/// Saturating multiplication of an integer by a fixed-point value:
/// `rhs.saturating_mul(lhs)`.
pub fn saturating_mul_i64<const P: u32>(lhs: i64, rhs: FixedPoint64<P>) -> (r: FixedPoint64<P>)
    ensures
        r@ == clamp(lhs * rhs@, i64::MIN as int, i64::MAX as int),
{
    proof {
        assert(lhs * rhs@ == rhs@ * lhs) by (nonlinear_arith);
    }
    rhs.saturating_mul(lhs)
}

impl<const P: u32> FixedPoint64<P> {
    /// Rounded multiplication does not depend on the order of the factors:
    /// both orders give the same value, or both overflow.
    pub proof fn lemma_rmul_commutative(x: Self, y: Self, mode: RoundMode)
        ensures
            checked_i64(div_round(x@ * y@, Self::coef_int(), mode)) == checked_i64(
                div_round(y@ * x@, Self::coef_int(), mode),
            ),
    {
        assert(x@ * y@ == y@ * x@) by (nonlinear_arith);
    }

    /// Rounding towards zero by a unit is symmetric about zero: the negated
    /// value gives the negated result.
    pub proof fn lemma_round_towards_zero_symmetric(x: Self, unit: Self)
        requires
            unit@ != 0,
        ensures
            div_trunc(-x@, unit@) * unit@ == -(div_trunc(x@, unit@) * unit@),
    {
        lemma_div_trunc_odd(x@, unit@);
    }

    /// The next power of ten is symmetric about zero for every value but
    /// zero, which counts as positive: the negated value gives the negated
    /// power.
    pub proof fn lemma_next_power_of_ten_symmetric(x: Self)
        requires
            x@ != 0,
        ensures
            signed_next_pow10(-x@) == -signed_next_pow10(x@),
    {
        lemma_signed_next_pow10_odd(x@);
    }

    /// What `next_power_of_ten` gives is a power of ten of the sign of the
    /// value, no nearer to zero than the value, and the least such power.
    pub proof fn lemma_next_power_of_ten_is_least(x: Self)
        ensures
            exists|j: nat| #[trigger]
                pow10(j) == magnitude(signed_next_pow10(x@)) && magnitude(x@) <= pow10(j) && (j
                    > 0 ==> pow10((j - 1) as nat) < magnitude(x@)),
            x@ < 0 ==> signed_next_pow10(x@) < 0,
            x@ >= 0 ==> signed_next_pow10(x@) > 0,
    {
        lemma_next_pow10_is_least(magnitude(x@));
        lemma_pow10_from_grows(1, magnitude(x@));
    }

    /// The quotient rounded down and the quotient rounded up bracket the
    /// exact quotient of `x` by `y`, and are the same or one unit in the last
    /// place apart: the same exactly when the division leaves no remainder.
    pub proof fn lemma_rdiv_brackets(x: Self, y: Self)
        requires
            y@ != 0,
        ensures
            div_round(x@ * Self::coef_int(), y@, RoundMode::Floor) <= div_round(
                x@ * Self::coef_int(),
                y@,
                RoundMode::Ceil,
            ) <= div_round(x@ * Self::coef_int(), y@, RoundMode::Floor) + 1,
            y@ > 0 ==> div_round(x@ * Self::coef_int(), y@, RoundMode::Floor) * y@ <= x@
                * Self::coef_int() <= div_round(x@ * Self::coef_int(), y@, RoundMode::Ceil) * y@,
            y@ < 0 ==> div_round(x@ * Self::coef_int(), y@, RoundMode::Floor) * y@ >= x@
                * Self::coef_int() >= div_round(x@ * Self::coef_int(), y@, RoundMode::Ceil) * y@,
    {
        lemma_rounding_bracket(x@ * Self::coef_int(), y@);
    }

    /// The product rounded down and the product rounded up bracket the exact
    /// product, and are the same or one unit in the last place apart.
    pub proof fn lemma_rmul_brackets(x: Self, y: Self)
        requires
            Self::valid(),
        ensures
            div_round(x@ * y@, Self::coef_int(), RoundMode::Floor) <= div_round(
                x@ * y@,
                Self::coef_int(),
                RoundMode::Ceil,
            ) <= div_round(x@ * y@, Self::coef_int(), RoundMode::Floor) + 1,
            div_round(x@ * y@, Self::coef_int(), RoundMode::Floor) * Self::coef_int() <= x@ * y@
                <= div_round(x@ * y@, Self::coef_int(), RoundMode::Ceil) * Self::coef_int(),
    {
        Self::lemma_coef_range();
        lemma_rounding_bracket(x@ * y@, Self::coef_int());
    }

    /// Multiplying or dividing by one changes nothing, whatever the rounding
    /// mode: the greatest value times one is the greatest value.
    pub proof fn lemma_one_is_neutral(x: Self, mode: RoundMode)
        requires
            Self::valid(),
        ensures
            div_round(x@ * Self::coef_int(), Self::coef_int(), mode) == x@,
            checked_i64(div_round(x@ * Self::coef_int(), Self::coef_int(), mode)) == Ok::<
                int,
                ArithmeticError,
            >(x@),
    {
        let c = Self::coef_int();
        Self::lemma_coef_range();
        lemma_fundamental_div_mod_converse(x@ * c, c, x@, 0);
        assert(-(x@ * c) == (-x@) * c) by (nonlinear_arith);
        lemma_fundamental_div_mod_converse(-(x@ * c), c, -x@, 0);
    }

    /// The greatest value times the least value above one overflows when
    /// the product is rounded up.
    pub proof fn lemma_greatest_times_above_one_overflows()
        requires
            Self::valid(),
        ensures
            checked_i64(
                div_round(i64::MAX * (Self::coef_int() + 1), Self::coef_int(), RoundMode::Ceil),
            ) == Err::<int, ArithmeticError>(ArithmeticError::Overflow),
    {
        let c = Self::coef_int();
        let n = i64::MAX * (c + 1);
        let q = div_round(n, c, RoundMode::Ceil);
        Self::lemma_coef_range();
        lemma_rounding_bracket(n, c);
        if q <= i64::MAX {
            assert(q * c <= i64::MAX * c) by (nonlinear_arith)
                requires
                    q <= i64::MAX,
                    c > 0,
            ;
            assert(i64::MAX * (c + 1) == i64::MAX * c + i64::MAX) by (nonlinear_arith);
        }
    }

    /// Text written by `to_bytes` is read back by `parse_bytes` as the value
    /// it was written for; so writing what was read from such text gives the
    /// text again. This needs a precision of one digit or more: at precision
    /// zero the digit after the point that is always written is one too many.
    pub proof fn lemma_text_round_trip(x: Self)
        requires
            Self::valid(),
            P >= 1,
        ensures
            parse_signed(
                format_signed(x@, P as nat),
                P as nat,
                i64::MIN as int,
                i64::MAX as int,
            ) == Ok::<int, ConvertError>(x@),
    {
        lemma_format_then_parse_signed(x@, P as nat, i64::MIN as int, i64::MAX as int);
    }
}

} // verus!
