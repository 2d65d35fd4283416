//! Decimal text: `[+-]digits[.digits]` read into a sign and a scaled
//! magnitude, and a sign and a scaled magnitude written out.
use vstd::prelude::*;
use crate::arith::magnitude;
use crate::arith::pow10;
use crate::arith::pow10_u128;
use crate::errors::ConvertError;

verus! {

/// The byte `+`.
pub const PLUS: u8 = 43u8;

/// The byte `-`.
pub const MINUS: u8 = 45u8;

/// The byte `.`.
pub const POINT: u8 = 46u8;

/// The byte `0`.
pub const ZERO_DIGIT: u8 = 48u8;

/// Whether `b` is one of the bytes `0` to `9`.
pub open spec fn is_digit(b: u8) -> bool {
    48 <= b <= 57
}

/// Whether every byte of `s` is a digit.
pub open spec fn all_digits(s: Seq<u8>) -> bool {
    forall|i: int| 0 <= i < s.len() ==> is_digit(#[trigger] s[i])
}

/// The number that a sequence of digits spells; the empty one spells zero.
pub open spec fn digits_value(s: Seq<u8>) -> int
    decreases s.len(),
{
    if s.len() == 0 {
        0
    } else {
        10 * digits_value(s.drop_last()) + (s.last() - 48)
    }
}

/// The length of the sign that `s` starts with: one or zero.
pub open spec fn sign_len(s: Seq<u8>) -> int {
    if s.len() > 0 && (s[0] == PLUS || s[0] == MINUS) {
        1
    } else {
        0
    }
}

/// The place of the first point in `s`, or the length of `s` if it has none.
pub open spec fn first_point(s: Seq<u8>) -> int
    decreases s.len(),
{
    if s.len() == 0 || s[0] == POINT {
        0
    } else {
        1 + first_point(s.skip(1))
    }
}

/// What follows the sign.
pub open spec fn body_of(s: Seq<u8>) -> Seq<u8> {
    s.skip(sign_len(s))
}

/// The digits before the point.
pub open spec fn int_part(s: Seq<u8>) -> Seq<u8> {
    body_of(s).take(first_point(body_of(s)))
}

/// Whether the text has a point.
pub open spec fn has_point(s: Seq<u8>) -> bool {
    first_point(body_of(s)) < body_of(s).len()
}

/// The digits after the point; none where there is no point.
pub open spec fn frac_part(s: Seq<u8>) -> Seq<u8> {
    if has_point(s) {
        body_of(s).skip(first_point(body_of(s)) + 1)
    } else {
        Seq::empty()
    }
}

/// Whether `s` is an optional sign, one digit or more, and then nothing or a
/// point and one digit or more.
pub open spec fn well_formed(s: Seq<u8>) -> bool {
    &&& int_part(s).len() > 0
    &&& all_digits(int_part(s))
    &&& all_digits(frac_part(s))
    &&& has_point(s) ==> frac_part(s).len() > 0
}

/// What the text `s` stands for at `precision` digits after the point:
/// whether it has a minus sign, and its magnitude times `10^precision`.
/// Text of another form is `Malformed`, more digits after the point than
/// `precision` are a `PrecisionLoss`, a magnitude above `limit` is an `Overflow`.
pub open spec fn parse_spec(s: Seq<u8>, precision: nat, limit: int) -> Result<
    (bool, int),
    ConvertError,
> {
    if !well_formed(s) {
        Err(ConvertError::Malformed)
    } else if frac_part(s).len() > precision {
        Err(ConvertError::PrecisionLoss)
    } else {
        let m = digits_value(int_part(s) + frac_part(s)) * pow10(
            (precision - frac_part(s).len()) as nat,
        );
        if m > limit {
            Err(ConvertError::Overflow)
        } else {
            Ok((s[0] == MINUS, m))
        }
    }
}

/// What the text `s` stands for as a signed mantissa between `min` and `max`.
pub open spec fn parse_signed(s: Seq<u8>, precision: nat, min: int, max: int) -> Result<
    int,
    ConvertError,
> {
    match parse_spec(s, precision, -min) {
        Ok((negative, m)) => if negative {
            Ok(-m)
        } else if m <= max {
            Ok(m)
        } else {
            Err(ConvertError::Overflow)
        },
        Err(e) => Err(e),
    }
}

/// The digits of `n`, without leading zeros; zero is `0`.
pub open spec fn nat_digits(n: int) -> Seq<u8>
    decreases n,
{
    if n < 10 {
        seq![(48 + n) as u8]
    } else {
        nat_digits(n / 10).push((48 + n % 10) as u8)
    }
}

/// The last `width` digits of `n`, with leading zeros.
pub open spec fn fixed_digits(n: int, width: nat) -> Seq<u8>
    decreases width,
{
    if width == 0 {
        Seq::empty()
    } else {
        fixed_digits(n / 10, (width - 1) as nat).push((48 + n % 10) as u8)
    }
}

/// The `width` digits of the fraction `frac`, without the zeros at the end,
/// but never less than one digit.
pub open spec fn frac_digits(frac: int, width: nat) -> Seq<u8>
    decreases width,
{
    if frac <= 0 || width == 0 {
        seq![48u8]
    } else if frac % 10 == 0 {
        frac_digits(frac / 10, (width - 1) as nat)
    } else {
        fixed_digits(frac, width)
    }
}

/// The text of the number of magnitude `m / 10^precision`: a minus sign where
/// `negative` is set, the integer part, a point, and the fraction.
pub open spec fn format_spec(negative: bool, m: int, precision: nat) -> Seq<u8> {
    (if negative { seq![MINUS] } else { Seq::<u8>::empty() }) + nat_digits(m / pow10(precision))
        + seq![POINT] + frac_digits(m % pow10(precision), precision)
}

/// The text of the signed mantissa `v`.
pub open spec fn format_signed(v: int, precision: nat) -> Seq<u8> {
    format_spec(v < 0, magnitude(v), precision)
}

/// The place of the first point, counted from the front, is where a scan
/// that has met no point so far will find it.
proof fn lemma_first_point_step(s: Seq<u8>, i: int)
    requires
        0 <= i < s.len(),
        forall|j: int| 0 <= j < i ==> s[j] != POINT,
    ensures
        s[i] == POINT ==> first_point(s) == i,
        s[i] != POINT ==> first_point(s) >= i + 1,
        first_point(s) <= s.len(),
    decreases i,
{
    lemma_first_point_bound(s);
    if i == 0 {
    } else {
        let t = s.skip(1);
        assert forall|j: int| 0 <= j < i - 1 implies t[j] != POINT by {
            assert(t[j] == s[j + 1]);
        }
        lemma_first_point_step(t, i - 1);
    }
}

/// The place of the first point is within the text or at its end.
proof fn lemma_first_point_bound(s: Seq<u8>)
    ensures
        0 <= first_point(s) <= s.len(),
        forall|j: int| 0 <= j < first_point(s) ==> s[j] != POINT,
        first_point(s) < s.len() ==> s[first_point(s)] == POINT,
    decreases s.len(),
{
    if s.len() == 0 || s[0] == POINT {
    } else {
        let t = s.skip(1);
        lemma_first_point_bound(t);
        assert forall|j: int| 0 <= j < first_point(s) implies s[j] != POINT by {
            if j > 0 {
                assert(t[j - 1] == s[j]);
            }
        }
        if first_point(s) < s.len() {
            assert(t[first_point(t)] == s[first_point(s)]);
        }
    }
}

/// Whether `b` is one of the bytes `0` to `9`.
fn is_digit_byte(b: u8) -> (r: bool)
    ensures
        r == is_digit(b),
{
    ZERO_DIGIT <= b && b <= ZERO_DIGIT + 9
}

/// Reads the text `s` as a number with `precision` digits after the point.
pub fn parse_decimal(s: &[u8], precision: u32, limit: u128) -> (r: Result<
    (bool, u128),
    ConvertError,
>)
    requires
        precision <= 38,
    ensures
        match parse_spec(s@, precision as nat, limit as int) {
            Ok((negative, m)) => 0 <= m <= limit && r == Ok::<(bool, u128), ConvertError>(
                (negative, m as u128),
            ),
            Err(e) => r == Err::<(bool, u128), ConvertError>(e),
        },
{
    let n = s.len();
    let start: usize = if n > 0 && (s[0] == PLUS || s[0] == MINUS) { 1 } else { 0 };
    let negative = n > 0 && s[0] == MINUS;
    let ghost body = body_of(s@);
    // the integer part: up to the first point
    let mut i: usize = start;
    let mut digits_only = true;
    proof {
        lemma_first_point_bound(body);
    }
    while i < n && s[i] != POINT
        invariant
            start <= i <= n,
            n == s@.len(),
            body == s@.skip(start as int),
            forall|j: int| 0 <= j < i - start ==> body[j] != POINT,
            digits_only == all_digits(body.take(i - start)),
        decreases n - i,
    {
        proof {
            let a = body.take(i - start);
            let b = body.take(i - start + 1);
            assert(b[i - start] == s@[i as int]);
            assert forall|j: int| 0 <= j < a.len() implies a[j] == b[j] by {}
            if all_digits(b) {
                assert forall|j: int| 0 <= j < a.len() implies is_digit(#[trigger] a[j]) by {
                    assert(is_digit(b[j]));
                }
            }
            if all_digits(a) && is_digit(s@[i as int]) {
                assert forall|j: int| 0 <= j < b.len() implies is_digit(#[trigger] b[j]) by {
                    if j < a.len() {
                        assert(is_digit(a[j]));
                    }
                }
            }
        }
        if !is_digit_byte(s[i]) {
            digits_only = false;
        }
        i = i + 1;
    }
    let dot: usize = i - start;
    proof {
        if i < n {
            assert(body[dot as int] == s@[i as int]);
            lemma_first_point_step(body, dot as int);
        } else {
            lemma_first_point_bound(body);
            if first_point(body) < body.len() {
                assert(body[first_point(body)] != POINT);
            }
        }
        assert(first_point(body) == dot);
    }
    // the fraction: what follows the point
    let frac_start: usize = if i < n { i + 1 } else { n };
    let frac_len: usize = n - frac_start;
    let ghost frac = frac_part(s@);
    proof {
        assert(frac.len() == frac_len);
        assert forall|j: int| 0 <= j < frac_len implies frac[j] == s@[frac_start + j] by {}
    }
    let mut j: usize = frac_start;
    while j < n
        invariant
            frac_start <= j <= n,
            n == s@.len(),
            frac.len() == n - frac_start,
            forall|k: int| 0 <= k < frac.len() ==> frac[k] == s@[frac_start + k],
            digits_only ==> forall|k: int| 0 <= k < j - frac_start ==> is_digit(#[trigger] frac[k]),
            !digits_only ==> !all_digits(int_part(s@)) || !all_digits(frac),
            digits_only ==> all_digits(int_part(s@)),
        decreases n - j,
    {
        if !is_digit_byte(s[j]) {
            proof {
                assert(!is_digit(frac[j - frac_start]));
            }
            digits_only = false;
        }
        j = j + 1;
    }
    if dot == 0 || !digits_only || (i < n && frac_len == 0) {
        return Err(ConvertError::Malformed);
    }
    if frac_len > precision as usize {
        return Err(ConvertError::PrecisionLoss);
    }
    // the digits before and after the point, read as one number
    let ghost digits = int_part(s@) + frac;
    let total: usize = dot + frac_len;
    let mut acc: u128 = 0;
    let mut too_big = false;
    let mut k: usize = 0;
    proof {
        assert(digits.take(0) =~= Seq::<u8>::empty());
        assert forall|t: int| 0 <= t < dot implies digits[t] == s@[start + t] by {
            assert(int_part(s@)[t] == body[t]);
        }
    }
    while k < total
        invariant
            k <= total,
            total == dot + frac_len,
            total == digits.len(),
            start + total + 1 <= n + 1,
            i < n ==> start + total + 1 == n,
            i >= n ==> frac_len == 0,
            dot == i - start,
            n == s@.len(),
            all_digits(digits),
            forall|t: int| 0 <= t < dot ==> digits[t] == s@[start + t],
            forall|t: int| dot <= t < total ==> digits[t] == s@[start + t + 1],
            !too_big ==> acc == digits_value(digits.take(k as int)) && acc <= limit,
            too_big ==> digits_value(digits.take(k as int)) > limit,
        decreases total - k,
    {
        let idx: usize = if k < dot { start + k } else { start + k + 1 };
        proof {
            assert(digits[k as int] == s@[idx as int]);
            assert(is_digit(digits[k as int]));
        }
        let d: u128 = (s[idx] - ZERO_DIGIT) as u128;
        proof {
            let next = digits.take(k + 1);
            assert(next.drop_last() =~= digits.take(k as int));
            assert(next.last() == digits[k as int]);
            assert(is_digit(digits[k as int]));
            lemma_digits_value_nonnegative(digits.take(k as int));
        }
        if !too_big {
            match acc.checked_mul(10) {
                None => {
                    too_big = true;
                },
                Some(t) => match t.checked_add(d) {
                    None => {
                        too_big = true;
                    },
                    Some(v) => {
                        if v > limit {
                            too_big = true;
                        } else {
                            acc = v;
                        }
                    },
                },
            }
        }
        k = k + 1;
    }
    proof {
        assert(digits.take(total as int) =~= digits);
        crate::arith::lemma_pow10_increases(0, (precision - frac_len) as nat);
        lemma_digits_value_nonnegative(digits);
    }
    let scale = pow10_u128(precision - frac_len as u32);
    if too_big {
        proof {
            assert(digits_value(digits) * scale >= digits_value(digits)) by (nonlinear_arith)
                requires
                    digits_value(digits) >= 0,
                    scale >= 1,
            ;
        }
        return Err(ConvertError::Overflow);
    }
    match acc.checked_mul(scale) {
        None => Err(ConvertError::Overflow),
        Some(m) => if m > limit {
            Err(ConvertError::Overflow)
        } else {
            Ok((negative, m))
        },
    }
}

/// Digits spell a number that is not negative.
pub proof fn lemma_digits_value_nonnegative(s: Seq<u8>)
    requires
        all_digits(s),
    ensures
        digits_value(s) >= 0,
    decreases s.len(),
{
    if s.len() > 0 {
        let t = s.drop_last();
        assert forall|j: int| 0 <= j < t.len() implies is_digit(#[trigger] t[j]) by {
            assert(t[j] == s[j]);
        }
        lemma_digits_value_nonnegative(t);
        assert(is_digit(s[s.len() - 1]));
    }
}

/// Whether every byte of `s` is below 128.
pub open spec fn is_ascii_bytes(s: Seq<u8>) -> bool {
    forall|i: int| 0 <= i < s.len() ==> #[trigger] s[i] < 128
}

/// Appends the digits of `n`, without leading zeros.
fn push_nat(out: &mut Vec<u8>, n: u128)
    ensures
        final(out)@ == old(out)@ + nat_digits(n as int),
        is_ascii_bytes(old(out)@) ==> is_ascii_bytes(final(out)@),
    decreases n,
{
    if n >= 10 {
        push_nat(out, n / 10);
    }
    let d: u8 = (n % 10) as u8;
    out.push(ZERO_DIGIT + d);
    proof {
        if n >= 10 {
            assert(final(out)@ =~= old(out)@ + nat_digits(n as int));
        } else {
            assert(final(out)@ =~= old(out)@ + nat_digits(n as int));
        }
    }
}

/// Appends the last `width` digits of `n`, with leading zeros.
fn push_fixed(out: &mut Vec<u8>, n: u128, width: u32)
    ensures
        final(out)@ == old(out)@ + fixed_digits(n as int, width as nat),
        is_ascii_bytes(old(out)@) ==> is_ascii_bytes(final(out)@),
    decreases width,
{
    if width > 0 {
        push_fixed(out, n / 10, width - 1);
        let d: u8 = (n % 10) as u8;
        out.push(ZERO_DIGIT + d);
    }
    proof {
        assert(final(out)@ =~= old(out)@ + fixed_digits(n as int, width as nat));
    }
}

/// Writes the number of magnitude `m / 10^precision`, with a minus sign where
/// `negative` is set, and with one digit or more after the point.
pub fn format_decimal(negative: bool, m: u128, precision: u32) -> (r: Vec<u8>)
    requires
        precision <= 38,
    ensures
        r@ == format_spec(negative, m as int, precision as nat),
        is_ascii_bytes(r@),
{
    let scale = pow10_u128(precision);
    let mut out: Vec<u8> = Vec::new();
    if negative {
        out.push(MINUS);
    }
    let ghost sign = out@;
    push_nat(&mut out, m / scale);
    out.push(POINT);
    let ghost head = out@;
    let mut frac: u128 = m % scale;
    let mut width: u32 = precision;
    while frac > 0 && width > 0 && frac % 10 == 0
        invariant
            frac_digits(frac as int, width as nat) == frac_digits(
                (m % scale) as int,
                precision as nat,
            ),
        decreases width,
    {
        frac = frac / 10;
        width = width - 1;
    }
    if frac == 0 || width == 0 {
        out.push(ZERO_DIGIT);
    } else {
        push_fixed(&mut out, frac, width);
    }
    proof {
        assert(sign =~= (if negative { seq![MINUS] } else { Seq::<u8>::empty() }));
        assert(head =~= sign + nat_digits(m as int / pow10(precision as nat)) + seq![POINT]);
        assert(out@ =~= format_spec(negative, m as int, precision as nat));
    }
    out
}

/// Trusted: `String::from_utf8`, which takes bytes that are valid UTF-8 as
/// the text they encode; a byte below 128 encodes the character of that number.
#[verifier::external_body]
pub(crate) fn ascii_string(bytes: Vec<u8>) -> (r: String)
    requires
        is_ascii_bytes(bytes@),
    ensures
        r@ == Seq::new(bytes@.len(), |i: int| bytes@[i] as char),
{
    String::from_utf8(bytes).unwrap()
}

/// A digit appended to a sequence of digits: ten times what the sequence
/// spells, and the digit.
proof fn lemma_digits_value_push(s: Seq<u8>, d: u8)
    ensures
        digits_value(s.push(d)) == 10 * digits_value(s) + (d - 48),
{
    assert(s.push(d).drop_last() =~= s);
}

/// The digits of a number are one or more digits that spell the number.
pub proof fn lemma_nat_digits(n: int)
    requires
        n >= 0,
    ensures
        nat_digits(n).len() >= 1,
        all_digits(nat_digits(n)),
        digits_value(nat_digits(n)) == n,
    decreases n,
{
    if n < 10 {
        let s = nat_digits(n);
        assert(s.drop_last() =~= Seq::<u8>::empty());
        assert(digits_value(s.drop_last()) == 0);
    } else {
        lemma_nat_digits(n / 10);
        lemma_digits_value_push(nat_digits(n / 10), (48 + n % 10) as u8);
        vstd::arithmetic::div_mod::lemma_fundamental_div_mod(n, 10);
    }
}

/// `width` digits after a sequence of digits: what the sequence spells moves
/// up by `width` places, and the number below `10^width` fills them.
pub proof fn lemma_fixed_digits(x: Seq<u8>, n: int, width: nat)
    requires
        0 <= n < pow10(width),
    ensures
        fixed_digits(n, width).len() == width,
        all_digits(fixed_digits(n, width)),
        digits_value(x + fixed_digits(n, width)) == digits_value(x) * pow10(width) + n,
    decreases width,
{
    if width == 0 {
        assert(x + fixed_digits(n, width) =~= x);
    } else {
        let w = (width - 1) as nat;
        let y = fixed_digits(n / 10, w);
        let d = (48 + n % 10) as u8;
        vstd::arithmetic::div_mod::lemma_fundamental_div_mod(n, 10);
        lemma_fixed_digits(x, n / 10, w);
        assert(x + y.push(d) =~= (x + y).push(d));
        lemma_digits_value_push(x + y, d);
        assert(10 * (digits_value(x) * pow10(w)) == digits_value(x) * (10 * pow10(w)))
            by (nonlinear_arith);
    }
}

/// The digits of a fraction after a sequence of digits: between one and
/// `width` digits, which together with the places left out spell the fraction.
pub proof fn lemma_frac_digits(x: Seq<u8>, frac: int, width: nat)
    requires
        width >= 1,
        0 <= frac < pow10(width),
    ensures
        1 <= frac_digits(frac, width).len() <= width,
        all_digits(frac_digits(frac, width)),
        digits_value(x + frac_digits(frac, width)) * pow10(
            (width - frac_digits(frac, width).len()) as nat,
        ) == digits_value(x) * pow10(width) + frac,
    decreases width,
{
    let w = (width - 1) as nat;
    let f = frac_digits(frac, width);
    if frac == 0 {
        assert(x + f =~= x.push(48u8));
        lemma_digits_value_push(x, 48u8);
        assert((10 * digits_value(x)) * pow10(w) == digits_value(x) * (10 * pow10(w)))
            by (nonlinear_arith);
    } else if frac % 10 == 0 {
        vstd::arithmetic::div_mod::lemma_fundamental_div_mod(frac, 10);
        assert(pow10(1) == 10) by {
            reveal_with_fuel(pow10, 2);
        }
        assert(width >= 2);
        lemma_frac_digits(x, frac / 10, w);
        let rest = (w - f.len()) as nat;
        assert(pow10((width - f.len()) as nat) == 10 * pow10(rest));
        assert(digits_value(x + f) * (10 * pow10(rest)) == 10 * (digits_value(x + f) * pow10(
            rest,
        ))) by (nonlinear_arith);
        assert(10 * (digits_value(x) * pow10(w)) == digits_value(x) * (10 * pow10(w)))
            by (nonlinear_arith);
    } else {
        lemma_fixed_digits(x, frac, width);
        assert(pow10(0) == 1);
    }
}

/// Text that was written for a sign and a magnitude is read back as that
/// sign and that magnitude, at any precision of one digit or more.
pub proof fn lemma_format_then_parse(negative: bool, m: int, precision: nat, limit: int)
    requires
        precision >= 1,
        0 <= m <= limit,
    ensures
        parse_spec(format_spec(negative, m, precision), precision, limit) == Ok::<
            (bool, int),
            ConvertError,
        >((negative, m)),
{
    let c = pow10(precision);
    crate::arith::lemma_pow10_increases(0, precision);
    vstd::arithmetic::div_mod::lemma_fundamental_div_mod(m, c);
    vstd::arithmetic::div_mod::lemma_mod_bound(m, c);
    vstd::arithmetic::div_mod::lemma_div_pos_is_pos(m, c);
    let sign = if negative { seq![MINUS] } else { Seq::<u8>::empty() };
    let i = nat_digits(m / c);
    let f = frac_digits(m % c, precision);
    let s = format_spec(negative, m, precision);
    lemma_nat_digits(m / c);
    lemma_frac_digits(i, m % c, precision);
    assert(s == sign + i + seq![POINT] + f);
    assert(is_digit(i[0]));
    if negative {
        assert(s[0] == MINUS);
    } else {
        assert(s[0] == i[0]);
    }
    assert(sign_len(s) == sign.len());
    let body = body_of(s);
    assert(body =~= i + seq![POINT] + f);
    assert forall|j: int| 0 <= j < i.len() implies body[j] != POINT by {
        assert(body[j] == i[j]);
        assert(is_digit(i[j]));
    }
    assert(body[i.len() as int] == POINT);
    lemma_first_point_step(body, i.len() as int);
    assert(int_part(s) =~= i);
    assert(has_point(s));
    assert(frac_part(s) =~= f);
    assert(c * (m / c) == (m / c) * c) by (nonlinear_arith);
}

/// Text that was written for a mantissa between `min` and `max` is read back
/// as that mantissa, at any precision of one digit or more.
pub proof fn lemma_format_then_parse_signed(v: int, precision: nat, min: int, max: int)
    requires
        precision >= 1,
        min <= v <= max,
        0 <= max <= -min,
    ensures
        parse_signed(format_signed(v, precision), precision, min, max) == Ok::<int, ConvertError>(
            v,
        ),
{
    lemma_format_then_parse(v < 0, magnitude(v), precision, -min);
}

} // verus!
