//! A signed 256-bit integer in two's complement over four 64-bit words.
//!
//! The unsigned 256-bit arithmetic is that of `primitive_types::U256`; the
//! functions that call it are marked as trusted and say what they rely on.
use vstd::prelude::*;
use vstd::arithmetic::div_mod::lemma_div_decreases;
use vstd::arithmetic::div_mod::lemma_div_nonincreasing;
use vstd::arithmetic::div_mod::lemma_div_pos_is_pos;
use vstd::arithmetic::div_mod::lemma_mod_self_0;
use vstd::arithmetic::div_mod::lemma_small_mod;
use vstd::std_specs::cmp::PartialOrdSpecImpl;
use vstd::std_specs::convert::FromSpecImpl;
use std::cmp::Ordering;
use crate::arith::div_trunc;
use crate::arith::magnitude;
use crate::errors::ArithmeticError;

verus! {

/// `2^64`.
pub open spec fn two_pow_64() -> int {
    0x1_0000_0000_0000_0000int
}

/// `2^128`.
pub open spec fn two_pow_128() -> int {
    0x1_0000_0000_0000_0000_0000_0000_0000_0000int
}

/// `2^192`.
pub open spec fn two_pow_192() -> int {
    0x1_0000_0000_0000_0000_0000_0000_0000_0000_0000_0000_0000_0000int
}

/// `2^255`.
pub open spec fn two_pow_255() -> int {
    0x8000_0000_0000_0000_0000_0000_0000_0000_0000_0000_0000_0000_0000_0000_0000_0000int
}

/// `2^256`.
pub open spec fn two_pow_256() -> int {
    0x1_0000_0000_0000_0000_0000_0000_0000_0000_0000_0000_0000_0000_0000_0000_0000_0000int
}

/// The word whose only set bit is the most significant one.
pub const SIGN_MASK: u64 = 0x8000_0000_0000_0000u64;

/// An unsigned 256-bit integer as four 64-bit words, least significant first.
#[derive(Clone, Copy, Debug, PartialEq, Eq, Structural)]
pub struct U256 {
    pub w0: u64,
    pub w1: u64,
    pub w2: u64,
    pub w3: u64,
}

impl U256 {
    /// The number that the four words stand for.
    pub open spec fn value(self) -> int {
        self.w0 + self.w1 * two_pow_64() + self.w2 * two_pow_128() + self.w3 * two_pow_192()
    }

    /// The number is below `2^256`, and the top bit of the most significant
    /// word is set exactly when it is at least `2^255`.
    pub proof fn lemma_value_range(self)
        ensures
            0 <= self.value() < two_pow_256(),
            (self.w3 >= SIGN_MASK) == (self.value() >= two_pow_255()),
    {
    }

    /// Two word quadruples that stand for the same number are the same.
    pub proof fn lemma_value_injective(self, other: U256)
        requires
            self.value() == other.value(),
        ensures
            self == other,
    {
    }

    /// Builds the integer from its words, least significant first.
    pub fn from_words(words: [u64; 4]) -> (r: U256)
        ensures
            r.w0 == words@[0],
            r.w1 == words@[1],
            r.w2 == words@[2],
            r.w3 == words@[3],
    {
        U256 { w0: words[0], w1: words[1], w2: words[2], w3: words[3] }
    }

    /// The four words, least significant first.
    pub fn words(&self) -> (r: [u64; 4])
        ensures
            r@[0] == self.w0,
            r@[1] == self.w1,
            r@[2] == self.w2,
            r@[3] == self.w3,
    {
        [self.w0, self.w1, self.w2, self.w3]
    }

    /// One.
    pub fn one() -> (r: U256)
        ensures
            r.value() == 1,
    {
        U256 { w0: 1, w1: 0, w2: 0, w3: 0 }
    }

    /// Trusted: `primitive_types::U256::from(u128)`, which puts the low and
    /// the high half of `x` into the two low words and zero into the others,
    /// so that the result stands for `x`.
    #[verifier::external_body]
    fn from_u128(x: u128) -> (r: U256)
        ensures
            r.value() == x,
    {
        let v = primitive_types::U256::from(x);
        U256 { w0: v.0[0], w1: v.0[1], w2: v.0[2], w3: v.0[3] }
    }

    /// Trusted: `i128::try_from(primitive_types::U256)`, which gives the
    /// number when it is at most `i128::MAX` and an error otherwise.
    #[verifier::external_body]
    fn try_to_i128(self) -> (r: Option<i128>)
        ensures
            self.value() <= i128::MAX ==> r == Some(self.value() as i128),
            self.value() > i128::MAX ==> r.is_none(),
    {
        let v = primitive_types::U256([self.w0, self.w1, self.w2, self.w3]);
        i128::try_from(v).ok()
    }

    /// Trusted: `primitive_types::U256::overflowing_add`, which gives the sum
    /// modulo `2^256` and whether the sum reached `2^256`.
    #[verifier::external_body]
    fn overflowing_add(self, other: U256) -> (r: (U256, bool))
        ensures
            r.0.value() == (self.value() + other.value()) % two_pow_256(),
            r.1 == (self.value() + other.value() >= two_pow_256()),
    {
        let x = primitive_types::U256([self.w0, self.w1, self.w2, self.w3]);
        let y = primitive_types::U256([other.w0, other.w1, other.w2, other.w3]);
        let (v, overflow) = x.overflowing_add(y);
        (U256 { w0: v.0[0], w1: v.0[1], w2: v.0[2], w3: v.0[3] }, overflow)
    }

    /// Trusted: `primitive_types::U256::overflowing_mul`, which gives the
    /// product modulo `2^256` and whether the product reached `2^256`.
    #[verifier::external_body]
    fn overflowing_mul(self, other: U256) -> (r: (U256, bool))
        ensures
            r.0.value() == (self.value() * other.value()) % two_pow_256(),
            r.1 == (self.value() * other.value() >= two_pow_256()),
    {
        let x = primitive_types::U256([self.w0, self.w1, self.w2, self.w3]);
        let y = primitive_types::U256([other.w0, other.w1, other.w2, other.w3]);
        let (v, overflow) = x.overflowing_mul(y);
        (U256 { w0: v.0[0], w1: v.0[1], w2: v.0[2], w3: v.0[3] }, overflow)
    }

    /// Trusted: the subtraction operator of `primitive_types::U256`, which
    /// gives the difference and panics when `other` is the larger number.
    #[verifier::external_body]
    fn minus(self, other: U256) -> (r: U256)
        requires
            other.value() <= self.value(),
        ensures
            r.value() == self.value() - other.value(),
    {
        let x = primitive_types::U256([self.w0, self.w1, self.w2, self.w3]);
        let y = primitive_types::U256([other.w0, other.w1, other.w2, other.w3]);
        let v = x - y;
        U256 { w0: v.0[0], w1: v.0[1], w2: v.0[2], w3: v.0[3] }
    }

    /// Trusted: the division operator of `primitive_types::U256`, which gives
    /// the quotient without its remainder and panics on a zero divisor.
    #[verifier::external_body]
    fn divided_by(self, other: U256) -> (r: U256)
        requires
            other.value() != 0,
        ensures
            r.value() == self.value() / other.value(),
    {
        let x = primitive_types::U256([self.w0, self.w1, self.w2, self.w3]);
        let y = primitive_types::U256([other.w0, other.w1, other.w2, other.w3]);
        let v = x / y;
        U256 { w0: v.0[0], w1: v.0[1], w2: v.0[2], w3: v.0[3] }
    }

    /// Trusted: the `!` operator of `primitive_types::U256`, which flips every
    /// bit of every word, so that the number and the result add up to `2^256 - 1`.
    #[verifier::external_body]
    fn complement(self) -> (r: U256)
        ensures
            r.value() == two_pow_256() - 1 - self.value(),
    {
        let v = !primitive_types::U256([self.w0, self.w1, self.w2, self.w3]);
        U256 { w0: v.0[0], w1: v.0[1], w2: v.0[2], w3: v.0[3] }
    }

    /// Trusted: `Ord::cmp` of `primitive_types::U256`, which compares the
    /// words from the most significant one down, that is, the two numbers.
    #[verifier::external_body]
    fn compare(self, other: U256) -> (r: Ordering)
        ensures
            (r == Ordering::Less) == (self.value() < other.value()),
            (r == Ordering::Equal) == (self.value() == other.value()),
            (r == Ordering::Greater) == (self.value() > other.value()),
    {
        let x = primitive_types::U256([self.w0, self.w1, self.w2, self.w3]);
        let y = primitive_types::U256([other.w0, other.w1, other.w2, other.w3]);
        x.cmp(&y)
    }
}

/// The least value of [`I256`], `-2^255`.
pub open spec fn i256_min() -> int {
    -two_pow_255()
}

/// The greatest value of [`I256`], `2^255 - 1`.
pub open spec fn i256_max() -> int {
    two_pow_255() - 1
}

/// The signed number that a 256-bit pattern stands for in two's complement.
pub open spec fn signed(bits: U256) -> int {
    if bits.w3 >= SIGN_MASK {
        bits.value() - two_pow_256()
    } else {
        bits.value()
    }
}

/// Signed 256-bit number: two's complement over [`U256`].
#[derive(Clone, Copy, Debug, PartialEq, Eq, Structural)]
pub struct I256 {
    inner: U256,
}

impl View for I256 {
    type V = int;

    closed spec fn view(&self) -> int {
        signed(self.inner)
    }
}

impl I256 {
    /// Every value lies between `-2^255` and `2^255 - 1`.
    pub proof fn lemma_range(self)
        ensures
            i256_min() <= self@ <= i256_max(),
    {
        self.inner.lemma_value_range();
    }

    /// Two values that stand for the same number are the same.
    pub proof fn lemma_view_injective(self, other: I256)
        requires
            self@ == other@,
        ensures
            self == other,
    {
        self.inner.lemma_value_range();
        other.inner.lemma_value_range();
        self.inner.lemma_value_injective(other.inner);
    }

    /// The value whose two's complement pattern is `bits`.
    pub fn new(bits: U256) -> (r: I256)
        ensures
            r@ == signed(bits),
            r.bits() == bits,
    {
        I256 { inner: bits }
    }

    /// The two's complement pattern of the value.
    pub closed spec fn bits(self) -> U256 {
        self.inner
    }

    /// The four words of the two's complement pattern, least significant first.
    pub fn words(&self) -> (r: [u64; 4])
        ensures
            r@[0] == self.bits().w0,
            r@[1] == self.bits().w1,
            r@[2] == self.bits().w2,
            r@[3] == self.bits().w3,
            self@ == signed(self.bits()),
    {
        self.inner.words()
    }

    /// The greatest value, `2^255 - 1`.
    pub fn max_value() -> (r: I256)
        ensures
            r@ == i256_max(),
    {
        I256::new(
            U256 {
                w0: 0xffff_ffff_ffff_ffff,
                w1: 0xffff_ffff_ffff_ffff,
                w2: 0xffff_ffff_ffff_ffff,
                w3: 0x7fff_ffff_ffff_ffff,
            },
        )
    }

    /// The least value, `-2^255`.
    pub fn min_value() -> (r: I256)
        ensures
            r@ == i256_min(),
    {
        I256::new(U256 { w0: 0, w1: 0, w2: 0, w3: SIGN_MASK })
    }

    /// `i128::MAX` as a 256-bit value.
    pub fn i128_max() -> (r: I256)
        ensures
            r@ == i128::MAX,
    {
        I256::from_i128(i128::MAX)
    }

    /// `i128::MIN` as a 256-bit value.
    pub fn i128_min() -> (r: I256)
        ensures
            r@ == i128::MIN,
    {
        I256::from_i128(i128::MIN)
    }

    /// The sign bit in its place in the most significant word: `SIGN_MASK`
    /// for a negative value, zero otherwise.
    pub fn sign(&self) -> (r: u64)
        ensures
            r == (if self@ < 0 { SIGN_MASK } else { 0 }),
    {
        let top: u64 = self.inner.w3;
        proof {
            self.inner.lemma_value_range();
            assert(top & 0x8000_0000_0000_0000u64 == (if top >= 0x8000_0000_0000_0000u64 {
                0x8000_0000_0000_0000u64
            } else {
                0u64
            })) by (bit_vector);
        }
        top & SIGN_MASK
    }

    /// Whether the value is below zero.
    pub fn is_negative(&self) -> (r: bool)
        ensures
            r == (self@ < 0),
    {
        self.sign() != 0
    }

    /// The magnitude as an unsigned number; that of the least value is `2^255`.
    fn unsigned_abs(self) -> (r: U256)
        ensures
            r.value() == magnitude(self@),
    {
        if !self.is_negative() {
            proof {
                self.inner.lemma_value_range();
            }
            self.inner
        } else {
            let (r, _) = self.inner.complement().overflowing_add(U256::one());
            proof {
                self.inner.lemma_value_range();
                let m = two_pow_256() - self.inner.value();
                lemma_small_mod(m as nat, two_pow_256() as nat);
            }
            r
        }
    }

    /// The value of magnitude `mag`, negative where `negative` is set.
    fn with_sign(mag: U256, negative: bool) -> (r: I256)
        requires
            mag.value() <= (if negative { two_pow_255() } else { two_pow_255() - 1 }),
        ensures
            r@ == (if negative { -mag.value() } else { mag.value() }),
    {
        if !negative {
            proof {
                mag.lemma_value_range();
            }
            I256::new(mag)
        } else {
            let (r, _) = mag.complement().overflowing_add(U256::one());
            proof {
                mag.lemma_value_range();
                r.lemma_value_range();
                if mag.value() == 0 {
                    lemma_mod_self_0(two_pow_256());
                } else {
                    let m = two_pow_256() - mag.value();
                    lemma_small_mod(m as nat, two_pow_256() as nat);
                }
            }
            I256::new(r)
        }
    }

    /// Sign-extends a 128-bit value.
    pub fn from_i128(x: i128) -> (r: I256)
        ensures
            r@ == x,
    {
        if x >= 0 {
            I256::with_sign(U256::from_u128(x as u128), false)
        } else {
            let below: u128 = (-(x + 1)) as u128;
            I256::with_sign(U256::from_u128(below + 1), true)
        }
    }

    /// The magnitudes' product modulo `2^256`, whether it reached `2^256`, and
    /// whether the operands' signs differ.
    fn mul_parts(self, rhs: I256) -> (r: (U256, bool, bool))
        ensures
            r.1 == (magnitude(self@ * rhs@) >= two_pow_256()),
            !r.1 ==> r.0.value() == magnitude(self@ * rhs@),
            r.2 == ((self@ < 0) != (rhs@ < 0)),
            r.2 ==> self@ * rhs@ <= 0,
            !r.2 ==> self@ * rhs@ >= 0,
    {
        let negative = self.is_negative() != rhs.is_negative();
        let (value, overflow) = self.unsigned_abs().overflowing_mul(rhs.unsigned_abs());
        proof {
            let a = self@;
            let b = rhs@;
            assert(magnitude(a) * magnitude(b) == magnitude(a * b) && (((a < 0) != (b < 0)) ==> a
                * b <= 0) && (((a < 0) == (b < 0)) ==> a * b >= 0)) by (nonlinear_arith);
            if !overflow {
                lemma_small_mod(magnitude(a * b) as nat, two_pow_256() as nat);
            }
        }
        (value, overflow, negative)
    }

    /// The product, or `Overflow` when it does not fit into 256 bits.
    pub fn mul(self, rhs: I256) -> (r: Result<I256, ArithmeticError>)
        ensures
            i256_min() <= self@ * rhs@ <= i256_max() ==> r.is_ok() && r.unwrap()@ == self@ * rhs@,
            !(i256_min() <= self@ * rhs@ <= i256_max()) ==> r == Err::<I256, ArithmeticError>(
                ArithmeticError::Overflow,
            ),
    {
        let (value, overflow, negative) = self.mul_parts(rhs);
        if overflow {
            return Err(ArithmeticError::Overflow);
        }
        let limit = if negative {
            I256::min_value().inner
        } else {
            I256::max_value().inner
        };
        proof {
            limit.lemma_value_range();
        }
        match value.compare(limit) {
            Ordering::Greater => Err(ArithmeticError::Overflow),
            _ => Ok(I256::with_sign(value, negative)),
        }
    }

    /// The product of two values whose product fits into 256 bits, as that of
    /// two widened 128-bit values always does.
    pub fn exact_mul(self, rhs: I256) -> (r: I256)
        requires
            i256_min() <= self@ * rhs@ <= i256_max(),
        ensures
            r@ == self@ * rhs@,
    {
        let (value, _, negative) = self.mul_parts(rhs);
        I256::with_sign(value, negative)
    }

    /// The quotient rounded towards zero.
    pub fn div(self, rhs: I256) -> (r: I256)
        requires
            rhs@ != 0,
            !(self@ == i256_min() && rhs@ == -1),
        ensures
            r@ == div_trunc(self@, rhs@),
    {
        let negative = self.is_negative() != rhs.is_negative();
        let value = self.unsigned_abs().divided_by(rhs.unsigned_abs());
        proof {
            let a = magnitude(self@);
            let b = magnitude(rhs@);
            self.lemma_range();
            lemma_div_nonincreasing(a, b);
            lemma_div_pos_is_pos(a, b);
            if b > 1 && a > 0 {
                lemma_div_decreases(a, b);
            }
        }
        I256::with_sign(value, negative)
    }

    /// The difference of the two magnitudes, negated where the signs differ.
    /// For two values of one sign this is the distance between them.
    pub fn sub(self, rhs: I256) -> (r: I256)
        requires
            magnitude(rhs@) <= magnitude(self@),
        ensures
            r@ == (if (self@ < 0) == (rhs@ < 0) {
                magnitude(self@) - magnitude(rhs@)
            } else {
                magnitude(rhs@) - magnitude(self@)
            }),
    {
        let negative = self.is_negative() != rhs.is_negative();
        let value = self.unsigned_abs().minus(rhs.unsigned_abs());
        proof {
            self.lemma_range();
            rhs.lemma_range();
        }
        I256::with_sign(value, negative)
    }

    /// The negated value. The least value has no negation.
    pub fn neg(self) -> (r: I256)
        requires
            self@ != i256_min(),
        ensures
            r@ == -self@,
    {
        let (x, _) = self.inner.complement().overflowing_add(U256::one());
        proof {
            self.inner.lemma_value_range();
            x.lemma_value_range();
            if self.inner.value() == 0 {
                lemma_mod_self_0(two_pow_256());
            } else {
                let m = two_pow_256() - self.inner.value();
                lemma_small_mod(m as nat, two_pow_256() as nat);
            }
        }
        I256::new(x)
    }

    /// The magnitude. The least value has none.
    pub fn abs(self) -> (r: I256)
        requires
            self@ != i256_min(),
        ensures
            r@ == magnitude(self@),
    {
        if !self.is_negative() {
            return self;
        }
        self.neg()
    }

    /// Orders two values as the numbers they stand for: a negative value is
    /// below a non-negative one, and within one sign the patterns decide.
    pub fn cmp(&self, other: &I256) -> (r: Ordering)
        ensures
            (r == Ordering::Less) == (self@ < other@),
            (r == Ordering::Equal) == (self@ == other@),
            (r == Ordering::Greater) == (self@ > other@),
    {
        proof {
            self.inner.lemma_value_range();
            other.inner.lemma_value_range();
        }
        match (self.is_negative(), other.is_negative()) {
            (true, false) => Ordering::Less,
            (false, true) => Ordering::Greater,
            _ => self.inner.compare(other.inner),
        }
    }

    /// The value as a 128-bit integer, or `Overflow` when it has none.
    pub fn try_into_i128(self) -> (r: Result<i128, ArithmeticError>)
        ensures
            i128::MIN <= self@ <= i128::MAX ==> r == Ok::<i128, ArithmeticError>(self@ as i128),
            !(i128::MIN <= self@ <= i128::MAX) ==> r == Err::<i128, ArithmeticError>(
                ArithmeticError::Overflow,
            ),
    {
        let lowest = I256::i128_min();
        if self > I256::i128_max() || self < lowest {
            return Err(ArithmeticError::Overflow);
        }
        if self == lowest {
            proof {
                self.lemma_view_injective(lowest);
            }
            return Ok(i128::MIN);
        }
        proof {
            if self@ == lowest@ {
                self.lemma_view_injective(lowest);
            }
        }
        let was_negative = self.is_negative();
        match self.abs().inner.try_to_i128() {
            None => Err(ArithmeticError::Overflow),
            Some(x) => if was_negative {
                Ok(-x)
            } else {
                Ok(x)
            },
        }
    }
}

impl PartialOrd for I256 {
    fn partial_cmp(&self, other: &I256) -> (r: Option<Ordering>) {
        Some(self.cmp(other))
    }
}

impl PartialOrdSpecImpl for I256 {
    open spec fn obeys_partial_cmp_spec() -> bool {
        true
    }

    /// Values are ordered as the numbers they stand for.
    open spec fn partial_cmp_spec(&self, other: &I256) -> Option<Ordering> {
        if self@ < other@ {
            Some(Ordering::Less)
        } else if self@ > other@ {
            Some(Ordering::Greater)
        } else {
            Some(Ordering::Equal)
        }
    }
}

impl From<i128> for I256 {
    fn from(x: i128) -> (r: I256) {
        let r = I256::from_i128(x);
        proof {
            r.lemma_view_injective(choose|v: I256| v@ == x);
        }
        r
    }
}

impl FromSpecImpl<i128> for I256 {
    open spec fn obeys_from_spec() -> bool {
        true
    }

    /// The value that stands for `x`.
    open spec fn from_spec(x: i128) -> I256 {
        choose|v: I256| v@ == x
    }
}

} // verus!
