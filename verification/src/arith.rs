//! Integer arithmetic that the fixed-point types are specified with:
//! powers of ten and the rounded quotients of two integers.
use vstd::prelude::*;
use vstd::arithmetic::div_mod::lemma_fundamental_div_mod;
use vstd::arithmetic::div_mod::lemma_fundamental_div_mod_converse;
use vstd::arithmetic::div_mod::lemma_mod_bound;
use crate::errors::ConvertError;

verus! {

/// Direction in which an inexact result is rounded. The direction refers to
/// the mathematical value, not to its magnitude.
#[derive(Clone, Copy, Debug, PartialEq, Eq, Structural)]
pub enum RoundMode {
    /// Towards positive infinity.
    Ceil,
    /// Towards negative infinity.
    Floor,
}

/// `|x|`.
pub open spec fn magnitude(x: int) -> int {
    if x < 0 { -x } else { x }
}

/// `10^n`.
pub open spec fn pow10(n: nat) -> int
    decreases n,
{
    if n == 0 { 1 } else { 10 * pow10((n - 1) as nat) }
}

/// The quotient `n / d` rounded towards zero.
pub open spec fn div_trunc(n: int, d: int) -> int
    recommends d != 0,
{
    if (n < 0) == (d < 0) {
        magnitude(n) / magnitude(d)
    } else {
        -(magnitude(n) / magnitude(d))
    }
}

/// The quotient `n / d` rounded towards negative infinity.
pub open spec fn div_floor(n: int, d: int) -> int
    recommends d != 0,
{
    if d > 0 { n / d } else { (-n) / (-d) }
}

/// The quotient `n / d` rounded towards positive infinity.
pub open spec fn div_ceil(n: int, d: int) -> int
    recommends d != 0,
{
    -div_floor(-n, d)
}

/// The quotient `n / d` rounded in the direction `mode`.
pub open spec fn div_round(n: int, d: int, mode: RoundMode) -> int
    recommends d != 0,
{
    match mode {
        RoundMode::Ceil => div_ceil(n, d),
        RoundMode::Floor => div_floor(n, d),
    }
}

/// The quotient `n / d` rounded to the nearest integer, a tie going away from zero.
pub open spec fn div_nearest(n: int, d: int) -> int
    recommends d > 0,
{
    if n < 0 {
        -((2 * (-n) + d) / (2 * d))
    } else {
        (2 * n + d) / (2 * d)
    }
}

/// `v` bounded to the interval `[lo, hi]`.
pub open spec fn clamp(v: int, lo: int, hi: int) -> int {
    if v < lo { lo } else if v > hi { hi } else { v }
}

/// Euclidean division of a negated dividend: the quotient of `-a` by `b` is
/// the negated quotient of `a` by `b`, one less when `b` does not divide `a`.
pub proof fn lemma_div_of_negation(a: int, b: int)
    requires
        b > 0,
    ensures
        a % b == 0 ==> (-a) / b == -(a / b),
        a % b != 0 ==> (-a) / b == -(a / b) - 1,
{
    let q = a / b;
    let r = a % b;
    lemma_fundamental_div_mod(a, b);
    lemma_mod_bound(a, b);
    if r == 0 {
        assert(-a == (-q) * b + 0) by (nonlinear_arith)
            requires a == b * q + r, r == 0;
        lemma_fundamental_div_mod_converse(-a, b, -q, 0);
    } else {
        assert(-a == (-q - 1) * b + (b - r)) by (nonlinear_arith)
            requires a == b * q + r;
        lemma_fundamental_div_mod_converse(-a, b, -q - 1, b - r);
    }
}

/// The floor of a quotient is the greatest integer whose product with the
/// divisor does not pass the dividend.
pub proof fn lemma_div_floor_bounds(n: int, d: int)
    requires
        d != 0,
    ensures
        d > 0 ==> div_floor(n, d) * d <= n < div_floor(n, d) * d + d,
        d < 0 ==> div_floor(n, d) * d >= n > div_floor(n, d) * d + d,
{
    if d > 0 {
        lemma_fundamental_div_mod(n, d);
        lemma_mod_bound(n, d);
        assert(d * (n / d) == (n / d) * d) by (nonlinear_arith);
    } else {
        let q = (-n) / (-d);
        lemma_fundamental_div_mod(-n, -d);
        lemma_mod_bound(-n, -d);
        assert((-d) * q == -(q * d)) by (nonlinear_arith);
    }
}

/// How the floor and the ceiling of a quotient follow from the quotient
/// rounded towards zero: they agree with it when the division is exact;
/// otherwise a positive quotient has it as its floor and a negative quotient
/// has it as its ceiling, the other one lying one further from zero.
pub proof fn lemma_rounding_of_trunc(n: int, d: int)
    requires
        d != 0,
    ensures
        (n == div_trunc(n, d) * d) <==> magnitude(n) % magnitude(d) == 0,
        n == div_trunc(n, d) * d ==> div_floor(n, d) == div_trunc(n, d) && div_ceil(n, d)
            == div_trunc(n, d),
        n != div_trunc(n, d) * d && ((n < 0) == (d < 0)) ==> div_floor(n, d) == div_trunc(n, d)
            && div_ceil(n, d) == div_trunc(n, d) + 1,
        n != div_trunc(n, d) * d && ((n < 0) != (d < 0)) ==> div_floor(n, d) == div_trunc(n, d)
            - 1 && div_ceil(n, d) == div_trunc(n, d),
{
    let a = magnitude(n);
    let b = magnitude(d);
    let q = a / b;
    let r = a % b;
    lemma_fundamental_div_mod(a, b);
    lemma_mod_bound(a, b);
    lemma_div_of_negation(a, b);
    assert(a == q * b + r) by (nonlinear_arith)
        requires a == b * q + r;
    if (n < 0) == (d < 0) {
        // the quotient is not negative: floor is q, ceiling is -((-a) / b)
        assert(div_trunc(n, d) == q);
        assert(div_trunc(n, d) * d == if d > 0 { q * b } else { -(q * b) }) by (nonlinear_arith)
            requires div_trunc(n, d) == q, b == magnitude(d), d != 0;
        assert(div_floor(n, d) == a / b);
        assert(div_floor(-n, d) == (-a) / b);
    } else {
        assert(div_trunc(n, d) == -q);
        assert(div_trunc(n, d) * d == if d > 0 { -(q * b) } else { q * b }) by (nonlinear_arith)
            requires div_trunc(n, d) == -q, b == magnitude(d), d != 0;
        assert(div_floor(n, d) == (-a) / b);
        assert(div_floor(-n, d) == a / b);
    }
}

/// The view of a result: the view of its value, or its error.
pub open spec fn ok_view<T: View, E>(r: Result<T, E>) -> Result<T::V, E> {
    match r {
        Ok(v) => Ok(v@),
        Err(e) => Err(e),
    }
}

/// `p` multiplied by ten until it is at least `m`.
pub open spec fn pow10_from(p: int, m: int) -> int
    decreases (if p < m { m - p } else { 0 }),
{
    if 0 < p < m { pow10_from(10 * p, m) } else { p }
}

/// The least power of ten that is at least `m`.
pub open spec fn next_pow10(m: int) -> int {
    pow10_from(1, m)
}

/// The power of ten next to `x` on the side away from zero, with the sign of
/// `x`; zero counts as positive.
pub open spec fn signed_next_pow10(x: int) -> int {
    if x < 0 { -next_pow10(-x) } else { next_pow10(x) }
}

/// Powers of ten are positive and grow with the exponent.
pub proof fn lemma_pow10_increases(i: nat, j: nat)
    requires
        i <= j,
    ensures
        0 < pow10(i) <= pow10(j),
    decreases j,
{
    if j == 0 {
    } else if i == j {
        lemma_pow10_increases((i - 1) as nat, (j - 1) as nat);
    } else {
        lemma_pow10_increases(i, (j - 1) as nat);
    }
}

/// `10^(i + j) == 10^i * 10^j`.
pub proof fn lemma_pow10_adds(i: nat, j: nat)
    ensures
        pow10(i + j) == pow10(i) * pow10(j),
    decreases i,
{
    if i == 0 {
        assert(pow10(0) == 1);
        assert(1 * pow10(j) == pow10(j));
    } else {
        lemma_pow10_adds((i - 1) as nat, j);
        assert(pow10(i + j) == 10 * pow10((i + j - 1) as nat));
        assert(pow10(i) == 10 * pow10((i - 1) as nat));
        assert(10 * (pow10((i - 1) as nat) * pow10(j)) == (10 * pow10((i - 1) as nat)) * pow10(j))
            by (nonlinear_arith);
    }
}

/// `10^18`, the greatest power of ten below `2^63`.
pub proof fn lemma_pow10_18()
    ensures
        pow10(18) == 1_000_000_000_000_000_000,
        pow10(19) == 10_000_000_000_000_000_000,
{
    reveal_with_fuel(pow10, 20);
}

/// `10^38`, the greatest power of ten below `2^127`.
pub proof fn lemma_pow10_38()
    ensures
        pow10(38) == 100_000_000_000_000_000_000_000_000_000_000_000_000,
        pow10(39) == 1_000_000_000_000_000_000_000_000_000_000_000_000_000int,
{
    reveal_with_fuel(pow10, 40);
}

/// `10^n` for an exponent of at most 38.
pub fn pow10_u128(n: u32) -> (r: u128)
    requires
        n <= 38,
    ensures
        r == pow10(n as nat),
        1 <= r <= 100_000_000_000_000_000_000_000_000_000_000_000_000,
{
    let mut r: u128 = 1;
    let mut i: u32 = 0;
    while i < n
        invariant
            i <= n <= 38,
            r == pow10(i as nat),
        decreases n - i,
    {
        proof {
            lemma_pow10_increases((i + 1) as nat, 38);
            lemma_pow10_38();
        }
        r = r * 10;
        i = i + 1;
    }
    proof {
        lemma_pow10_increases(n as nat, 38);
        lemma_pow10_38();
    }
    r
}

/// A rounded quotient by a positive divisor has the sign of the dividend,
/// and is no further from zero than the dividend.
pub proof fn lemma_div_round_shrinks(n: int, d: int, mode: RoundMode)
    requires
        d >= 1,
    ensures
        n >= 0 ==> 0 <= div_round(n, d, mode) <= n,
        n <= 0 ==> n <= div_round(n, d, mode) <= 0,
{
    lemma_rounding_of_trunc(n, d);
    let a = magnitude(n);
    vstd::arithmetic::div_mod::lemma_div_nonincreasing(a, d);
    vstd::arithmetic::div_mod::lemma_div_pos_is_pos(a, d);
    vstd::arithmetic::div_mod::lemma_fundamental_div_mod(a, d);
    if d > 1 && a > 0 {
        vstd::arithmetic::div_mod::lemma_div_decreases(a, d);
    }
    if d == 1 {
        assert(a % 1 == 0);
    }
}

/// A rounded quotient has the sign that the signs of dividend and divisor
/// give it: it is not negative where they agree (or the dividend is zero).
pub proof fn lemma_div_round_sign(n: int, d: int, mode: RoundMode)
    requires
        d != 0,
    ensures
        (n < 0) == (d < 0) ==> div_round(n, d, mode) >= div_trunc(n, d) >= 0,
        (n < 0) != (d < 0) ==> div_round(n, d, mode) <= div_trunc(n, d) <= 0,
{
    lemma_rounding_of_trunc(n, d);
    vstd::arithmetic::div_mod::lemma_div_pos_is_pos(magnitude(n), magnitude(d));
}

/// Rounding up and rounding down bracket the quotient and differ by at most
/// one: the product of the floor with the divisor lies on the one side of the
/// dividend, that of the ceiling on the other.
pub proof fn lemma_rounding_bracket(n: int, d: int)
    requires
        d != 0,
    ensures
        div_round(n, d, RoundMode::Floor) <= div_round(n, d, RoundMode::Ceil) <= div_round(
            n,
            d,
            RoundMode::Floor,
        ) + 1,
        d > 0 ==> div_round(n, d, RoundMode::Floor) * d <= n <= div_round(n, d, RoundMode::Ceil)
            * d,
        d < 0 ==> div_round(n, d, RoundMode::Floor) * d >= n >= div_round(n, d, RoundMode::Ceil)
            * d,
        div_round(n, d, RoundMode::Floor) == div_round(n, d, RoundMode::Ceil) <==> n == div_round(
            n,
            d,
            RoundMode::Floor,
        ) * d,
{
    lemma_rounding_of_trunc(n, d);
    lemma_div_floor_bounds(n, d);
    lemma_div_floor_bounds(-n, d);
    let f = div_floor(n, d);
    let g = div_floor(-n, d);
    assert((-g) * d == -(g * d)) by (nonlinear_arith);
    let t = div_trunc(n, d);
    assert((t + 1) * d == t * d + d && (t - 1) * d == t * d - d) by (nonlinear_arith);
}

/// Negating the dividend negates the quotient rounded towards zero.
pub proof fn lemma_div_trunc_odd(n: int, d: int)
    requires
        d != 0,
    ensures
        div_trunc(-n, d) == -div_trunc(n, d),
        div_trunc(-n, d) * d == -(div_trunc(n, d) * d),
{
    vstd::arithmetic::div_mod::lemma_div_pos_is_pos(magnitude(n), magnitude(d));
    if n == 0 {
        assert(0int / magnitude(d) == 0) by (nonlinear_arith)
            requires magnitude(d) > 0;
    }
    let t = div_trunc(n, d);
    assert((-t) * d == -(t * d)) by (nonlinear_arith);
}

/// Multiplying by ten from a positive start never goes below the start.
pub proof fn lemma_pow10_from_grows(p: int, m: int)
    requires
        p > 0,
    ensures
        pow10_from(p, m) >= p,
        pow10_from(p, m) >= m,
    decreases (if p < m { m - p } else { 0 }),
{
    if p < m {
        lemma_pow10_from_grows(10 * p, m);
    }
}

/// Starting from `10^k`, where every smaller power of ten is below `m`, the
/// search ends at the least power of ten that is at least `m`.
pub proof fn lemma_pow10_from_is_least(k: nat, m: int)
    requires
        k > 0 ==> pow10((k - 1) as nat) < m,
    ensures
        exists|j: nat| #[trigger]
            pow10(j) == pow10_from(pow10(k), m) && m <= pow10(j) && (j > 0 ==> pow10(
                (j - 1) as nat,
            ) < m),
    decreases (if pow10(k) < m { m - pow10(k) } else { 0 }),
{
    lemma_pow10_increases(k, k);
    if pow10(k) < m {
        lemma_pow10_from_is_least(k + 1, m);
    } else {
        assert(pow10(k) == pow10_from(pow10(k), m));
    }
}

/// The next power of ten of `m` is a power of ten, is at least `m`, and the
/// power of ten before it is below `m`.
pub proof fn lemma_next_pow10_is_least(m: int)
    ensures
        exists|j: nat| #[trigger]
            pow10(j) == next_pow10(m) && m <= pow10(j) && (j > 0 ==> pow10((j - 1) as nat) < m),
{
    lemma_pow10_from_is_least(0, m);
}

/// The next power of ten keeps the sign: for a number other than zero, that
/// of its negation is the negated one.
pub proof fn lemma_signed_next_pow10_odd(x: int)
    requires
        x != 0,
    ensures
        signed_next_pow10(-x) == -signed_next_pow10(x),
{
}

/// The number `n * 10^shift`: for a negative `shift` the quotient by
/// `10^-shift`, where that is exact, and a `PrecisionLoss` where it is not.
pub open spec fn decimal_shift(n: int, shift: int) -> Result<int, ConvertError> {
    if shift >= 0 {
        Ok(n * pow10(shift as nat))
    } else if n % pow10((-shift) as nat) == 0 {
        Ok(n / pow10((-shift) as nat))
    } else {
        Err(ConvertError::PrecisionLoss)
    }
}

/// `decimal_shift`, with an `Overflow` where the number is not between `min` and `max`.
pub open spec fn decimal_shift_within(n: int, shift: int, min: int, max: int) -> Result<
    int,
    ConvertError,
> {
    match decimal_shift(n, shift) {
        Ok(v) => if min <= v <= max {
            Ok(v)
        } else {
            Err(ConvertError::Overflow)
        },
        Err(e) => Err(e),
    }
}

/// A product with a power of ten is no nearer to zero than the other factor.
proof fn lemma_scaled_magnitude(v: int, j: nat)
    ensures
        magnitude(v * pow10(j)) >= magnitude(v),
        (v < 0) == (v * pow10(j) < 0),
{
    lemma_pow10_increases(0, j);
    assert(magnitude(v * pow10(j)) >= magnitude(v) && ((v < 0) == (v * pow10(j) < 0)))
        by (nonlinear_arith)
        requires
            pow10(j) >= 1,
    ;
}

/// A number whose product with `10^i` is a multiple of `10^k`, for `i < k`,
/// is a multiple of ten.
proof fn lemma_multiple_of_ten(v: int, i: nat, k: nat)
    requires
        i < k,
        (v * pow10(i)) % pow10(k) == 0,
    ensures
        v % 10 == 0,
{
    let n = v * pow10(i);
    let rest = (k - i - 1) as nat;
    lemma_pow10_increases(0, i);
    lemma_pow10_increases(0, k);
    lemma_pow10_adds(i, (k - i) as nat);
    assert(pow10((k - i) as nat) == 10 * pow10(rest));
    lemma_fundamental_div_mod(n, pow10(k));
    let t = n / pow10(k);
    let w = pow10(rest) * t;
    assert(v == 10 * w) by (nonlinear_arith)
        requires
            v * pow10(i) == pow10(k) * t,
            pow10(k) == pow10(i) * (10 * pow10(rest)),
            w == pow10(rest) * t,
            pow10(i) > 0,
    ;
    lemma_fundamental_div_mod_converse(v, 10, w, 0);
}

/// Moves the decimal point of `n` by `shift` places, as `decimal_shift` says.
pub fn shift_decimal(n: i128, shift: i64) -> (r: Result<i128, ConvertError>)
    ensures
        match decimal_shift_within(n as int, shift as int, i128::MIN as int, i128::MAX as int) {
            Ok(v) => r == Ok::<i128, ConvertError>(v as i128),
            Err(e) => r == Err::<i128, ConvertError>(e),
        },
{
    if n == 0 {
        proof {
            if shift >= 0 {
                assert(0 * pow10(shift as nat) == 0);
            } else {
                lemma_pow10_increases(0, (-shift) as nat);
                lemma_fundamental_div_mod_converse(0, pow10((-shift) as nat), 0, 0);
            }
        }
        return Ok(0);
    }
    let mut v: i128 = n;
    if shift >= 0 {
        let mut i: i64 = 0;
        while i < shift
            invariant
                0 <= i <= shift,
                v == n * pow10(i as nat),
            decreases shift - i,
        {
            proof {
                lemma_pow10_adds((i + 1) as nat, (shift - i - 1) as nat);
                lemma_scaled_magnitude(v * 10, (shift - i - 1) as nat);
                assert(n * pow10((i + 1) as nat) == v * 10) by (nonlinear_arith)
                    requires
                        v == n * pow10(i as nat),
                        pow10((i + 1) as nat) == 10 * pow10(i as nat),
                ;
                assert(n * pow10(shift as nat) == (v * 10) * pow10((shift - i - 1) as nat))
                    by (nonlinear_arith)
                    requires
                        n * pow10((i + 1) as nat) == v * 10,
                        pow10(shift as nat) == pow10((i + 1) as nat) * pow10(
                            (shift - i - 1) as nat,
                        ),
                ;
            }
            match v.checked_mul(10) {
                None => {
                    return Err(ConvertError::Overflow);
                },
                Some(next) => {
                    v = next;
                },
            }
            i = i + 1;
        }
        Ok(v)
    } else {
        let places: i128 = -(shift as i128);
        let mut i: i128 = 0;
        while i < places
            invariant
                0 <= i <= places,
                places == -shift,
                n == v * pow10(i as nat),
            decreases places - i,
        {
            if v % 10 != 0 {
                proof {
                    if v < 0 {
                        lemma_div_of_negation(-v as int, 10);
                        lemma_fundamental_div_mod(v as int, 10);
                        lemma_fundamental_div_mod(-v as int, 10);
                    }
                    if (n as int) % pow10(places as nat) == 0 {
                        lemma_multiple_of_ten(v as int, i as nat, places as nat);
                    }
                }
                return Err(ConvertError::PrecisionLoss);
            }
            proof {
                let q: int = if v < 0 { -((-v) / 10) } else { v / 10 };
                lemma_fundamental_div_mod(magnitude(v as int), 10);
                assert(v == q * 10);
                assert(n == q * pow10((i + 1) as nat)) by (nonlinear_arith)
                    requires
                        n == v * pow10(i as nat),
                        v == q * 10,
                        pow10((i + 1) as nat) == 10 * pow10(i as nat),
                ;
            }
            v = v / 10;
            i = i + 1;
        }
        proof {
            lemma_pow10_increases(0, places as nat);
            lemma_fundamental_div_mod_converse(n as int, pow10(places as nat), v as int, 0);
        }
        Ok(v)
    }
}

} // verus!
