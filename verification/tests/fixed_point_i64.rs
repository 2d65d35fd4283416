use fixnum::ArithmeticError;
use fixnum::FixedPoint64;
use fixnum::RoundMode;
use fixnum::RoundMode::Ceil;

type Fp64 = FixedPoint64<9>;

fn fp(s: &str) -> Fp64 {
    Fp64::from_str(s).unwrap()
}

fn whole(x: i64) -> Fp64 {
    Fp64::try_from(x).unwrap()
}

fn assert_rmul(a: Fp64, b: Fp64, mode: RoundMode, result: Fp64) {
    // Check the commutative property.
    assert_eq!(a.rmul(b, mode), b.rmul(a, mode));
    // Check the result.
    assert_eq!(a.rmul(b, mode), Ok(result));
}

fn assert_rmuls(a: Fp64, b: Fp64, mode: RoundMode, result: Fp64) {
    // Check the commutative property.
    assert_eq!(a.rmul(b, mode), b.rmul(a, mode));
    // Check the result.
    assert_eq!(a.rmul(b, mode), Ok(result));
}

#[test]
fn tests_from_decimal() {
    let parsed = fp("5");
    let built = Fp64::from_decimal(5_000_000_000, -9);
    assert_eq!(Ok(parsed), built);
}

#[test]
fn from_less_accurate_decimal() {
    assert_eq!(Fp64::from_decimal(1, 0), Ok(fp("1")));
    assert_eq!(Fp64::from_decimal(1, 1), Ok(fp("10")));
}

#[test]
fn tests_from_good_str() {
    assert_eq!(fp("1"), Fp64::from_bits(1_000_000_000));
    assert_eq!(fp("1.1"), Fp64::from_bits(1_100_000_000));
    assert_eq!(fp("1.02"), Fp64::from_bits(1_020_000_000));
    assert_eq!(fp("-1.02"), Fp64::from_bits(-1_020_000_000));
    assert_eq!(fp("+1.02"), Fp64::from_bits(1_020_000_000));
    assert_eq!(
        fp("123456789.123456789"),
        Fp64::from_bits(123_456_789_123_456_789)
    );
    assert_eq!(
        fp("9223372036.854775807"),
        Fp64::from_bits(9_223_372_036_854_775_807)
    );
    assert_eq!(fp("0.1234"), Fp64::from_bits(123_400_000));
    assert_eq!(fp("-0.1234"), Fp64::from_bits(-123_400_000));
}

#[test]
fn tests_display() {
    assert_eq!(fp("10.042").to_string(), String::from("10.042"));
    assert_eq!(fp("10.042000").to_string(), String::from("10.042"));
    assert_eq!(fp("-10.042").to_string(), String::from("-10.042"));
    assert_eq!(fp("-10.042000").to_string(), String::from("-10.042"));
    assert_eq!(
        fp("0.000000001").to_string(),
        String::from("0.000000001")
    );
    assert_eq!(
        fp("-0.000000001").to_string(),
        String::from("-0.000000001")
    );
    assert_eq!(fp("-0.000").to_string(), String::from("0.0"));
}

#[test]
fn tests_from_bad_str() {
    let bad = &[
        "",
        "7.02e5",
        "a.12",
        "12.a",
        "13.0000000001",
        "13.1000000001",
        "13.9999999999999999999999999999999999999999999999999999999999999",
        "100000000000000000000000",
        "9223372036.854775808",
        "170141183460469231731687303715.884105728",
    ];

    for str in bad {
        assert!(Fp64::from_str(str).is_err(), "must not parse '{}'", str);
    }
}

#[test]
fn tests_exp_and_coef_should_agree() {
    let exp: i32 = -(Fp64::precision() as i32);
    assert!(exp < 0);
    assert_eq!(Fp64::coef(), 10i64.pow(-exp as u32));
}

#[test]
fn tests_cmul_overflow() {
    let result = Fp64::max_value().cmul(i64::MAX);
    assert_eq!(result, Err(ArithmeticError::Overflow));

    let result = Fp64::max_value().cmul(i64::MIN);
    assert_eq!(result, Err(ArithmeticError::Overflow));
}

#[test]
fn tests_rmul_exact() {
    assert_rmul(whole(525), whole(10), RoundMode::Ceil, whole(5250));
    assert_rmul(whole(525), whole(10), RoundMode::Floor, whole(5250));
    assert_rmul(whole(-525), whole(10), RoundMode::Ceil, whole(-5250));
    assert_rmul(whole(-525), whole(10), RoundMode::Floor, whole(-5250));
    assert_rmul(whole(-525), whole(-10), RoundMode::Ceil, whole(5250));
    assert_rmul(whole(-525), whole(-10), RoundMode::Floor, whole(5250));
    assert_rmul(whole(525), whole(-10), RoundMode::Ceil, whole(-5250));
    assert_rmul(whole(525), whole(-10), RoundMode::Floor, whole(-5250));
    assert_rmuls(fp("525"), fp("0.0001"), RoundMode::Ceil, fp("0.0525"));
    assert_rmuls(fp("525"), fp("0.0001"), RoundMode::Floor, fp("0.0525"));
    assert_rmuls(fp("-525"), fp("0.0001"), RoundMode::Ceil, fp("-0.0525"));
    assert_rmuls(fp("-525"), fp("0.0001"), RoundMode::Floor, fp("-0.0525"));
    assert_rmuls(fp("-525"), fp("-0.0001"), RoundMode::Ceil, fp("0.0525"));
    assert_rmuls(fp("-525"), fp("-0.0001"), RoundMode::Floor, fp("0.0525"));
    assert_rmul(Fp64::max_value(), whole(1), RoundMode::Ceil, Fp64::max_value());
    assert_rmul(Fp64::max_value(), whole(1), RoundMode::Floor, Fp64::max_value());
    assert_rmuls(fp(&Fp64::from_bits(i64::MAX / 10 * 10).to_string()), fp("0.1"), RoundMode::Ceil, fp(&Fp64::from_bits(i64::MAX / 10).to_string()));
    assert_rmuls(fp(&Fp64::from_bits(i64::MAX / 10 * 10).to_string()), fp("0.1"), RoundMode::Floor, fp(&Fp64::from_bits(i64::MAX / 10).to_string()));
    assert_rmuls(fp("1"), fp("0.000000001"), RoundMode::Ceil, fp("0.000000001"));
    assert_rmuls(fp("1"), fp("0.000000001"), RoundMode::Floor, fp("0.000000001"));
    assert_rmuls(fp("-1"), fp("-0.000000001"), RoundMode::Ceil, fp("0.000000001"));
    assert_rmuls(fp("-1"), fp("-0.000000001"), RoundMode::Floor, fp("0.000000001"));
}

#[test]
fn tests_rmul_round() {
    assert_rmuls(fp("0.1"), fp("0.000000001"), RoundMode::Ceil, fp("0.000000001"));
    assert_rmuls(fp("0.1"), fp("0.000000001"), RoundMode::Floor, fp("0"));
    assert_rmuls(fp("-0.1"), fp("0.000000001"), RoundMode::Ceil, fp("0"));
    assert_rmuls(fp("-0.1"), fp("0.000000001"), RoundMode::Floor, fp("-0.000000001"));
    assert_rmuls(fp("-0.1"), fp("-0.000000001"), RoundMode::Ceil, fp("0.000000001"));
    assert_rmuls(fp("-0.1"), fp("-0.000000001"), RoundMode::Floor, fp("0"));
    assert_rmuls(fp("0.000000001"), fp("0.000000001"), RoundMode::Ceil, fp("0.000000001"));
    assert_rmuls(fp("0.000000001"), fp("0.000000001"), RoundMode::Floor, fp("0"));
    assert_rmuls(fp("-0.000000001"), fp("0.000000001"), RoundMode::Ceil, fp("0"));
    assert_rmuls(fp("-0.000000001"), fp("0.000000001"), RoundMode::Floor, fp("-0.000000001"));
}

#[test]
fn tests_rmul_overflow() {
    let a = Fp64::max_value();
    let b = fp("1.1");
    assert_eq!(a.rmul(b, RoundMode::Ceil), Err(ArithmeticError::Overflow));

    let a = fp("140000");
    assert_eq!(a.rmul(a, RoundMode::Ceil), Err(ArithmeticError::Overflow));

    let a = fp("-140000");
    let b = fp("140000");
    assert_eq!(a.rmul(b, RoundMode::Ceil), Err(ArithmeticError::Overflow));
}

#[test]
fn tests_rdiv_exact() {
    let (numer, denom) = (fp("5"), fp("2"));
    let result = fp("2.5");
    assert_eq!(numer.rdiv(denom, RoundMode::Ceil), Ok(result));
    assert_eq!(numer.rdiv(denom, RoundMode::Floor), Ok(result));

    let (numer, denom) = (fp("-5"), fp("2"));
    let result = fp("-2.5");
    assert_eq!(numer.rdiv(denom, RoundMode::Ceil), Ok(result));
    assert_eq!(numer.rdiv(denom, RoundMode::Floor), Ok(result));

    let (numer, denom) = (fp("-5"), fp("-2"));
    let result = fp("2.5");
    assert_eq!(numer.rdiv(denom, RoundMode::Ceil), Ok(result));
    assert_eq!(numer.rdiv(denom, RoundMode::Floor), Ok(result));

    let (numer, denom) = (fp("5"), fp("-2"));
    let result = fp("-2.5");
    assert_eq!(numer.rdiv(denom, RoundMode::Ceil), Ok(result));
    assert_eq!(numer.rdiv(denom, RoundMode::Floor), Ok(result));

    let (numer, denom) = (Fp64::max_value(), Fp64::max_value());
    let result = fp("1");
    assert_eq!(numer.rdiv(denom, RoundMode::Ceil), Ok(result));
    assert_eq!(numer.rdiv(denom, RoundMode::Floor), Ok(result));

    let (numer, denom) = (fp("5"), fp("0.2"));
    let result = fp("25");
    assert_eq!(numer.rdiv(denom, RoundMode::Ceil), Ok(result));
    assert_eq!(numer.rdiv(denom, RoundMode::Floor), Ok(result));

    let (numer, denom) = (fp("0.00000001"), fp("10"));
    let result = fp("0.000000001");
    assert_eq!(numer.rdiv(denom, RoundMode::Ceil), Ok(result));
    assert_eq!(numer.rdiv(denom, RoundMode::Floor), Ok(result));

    let (numer, denom) = (fp("0.00000001"), fp("0.1"));
    let result = fp("0.0000001");
    assert_eq!(numer.rdiv(denom, RoundMode::Ceil), Ok(result));
    assert_eq!(numer.rdiv(denom, RoundMode::Floor), Ok(result));
}

fn assert_rdiv_i64(a: &str, b: i64, mode: RoundMode, expected: &str) {
    let a = fp(a);
    let expected = fp(expected);
    assert_eq!(a.rdiv_int(b, mode).unwrap(), expected);
}

#[test]
fn rdiv_i64() {
    assert_rdiv_i64("2.4", 2, RoundMode::Ceil, "1.2");
    assert_rdiv_i64("7", 3, RoundMode::Floor, "2.333333333");
    assert_rdiv_i64("7", 3, RoundMode::Ceil, "2.333333334");
    assert_rdiv_i64("-7", 3, RoundMode::Floor, "-2.333333334");
    assert_rdiv_i64("-7", 3, RoundMode::Ceil, "-2.333333333");
    assert_rdiv_i64("-7", -3, RoundMode::Floor, "2.333333333");
    assert_rdiv_i64("-7", -3, RoundMode::Ceil, "2.333333334");
    assert_rdiv_i64("7", -3, RoundMode::Floor, "-2.333333334");
    assert_rdiv_i64("7", -3, RoundMode::Ceil, "-2.333333333");
    assert_rdiv_i64("0", 5, RoundMode::Ceil, "0");
    assert_rdiv_i64("0.000000003", 2, RoundMode::Ceil, "0.000000002");
    assert_rdiv_i64("0.000000003", 2, RoundMode::Floor, "0.000000001");
    assert_rdiv_i64("0.000000003", 7, RoundMode::Floor, "0");
    assert_rdiv_i64("0.000000003", 7, RoundMode::Ceil, "0.000000001");
    assert_rdiv_i64("0.000000001", 7, RoundMode::Ceil, "0.000000001");
}

#[test]
fn tests_rdiv_round() {
    let (numer, denom) = (fp("100"), fp("3"));
    let ceil = fp("33.333333334");
    let floor = fp("33.333333333");
    assert_eq!(numer.rdiv(denom, RoundMode::Ceil), Ok(ceil));
    assert_eq!(numer.rdiv(denom, RoundMode::Floor), Ok(floor));

    let (numer, denom) = (fp("-100"), fp("3"));
    let ceil = fp("-33.333333333");
    let floor = fp("-33.333333334");
    assert_eq!(numer.rdiv(denom, RoundMode::Ceil), Ok(ceil));
    assert_eq!(numer.rdiv(denom, RoundMode::Floor), Ok(floor));

    let (numer, denom) = (fp("-100"), fp("-3"));
    let ceil = fp("33.333333334");
    let floor = fp("33.333333333");
    assert_eq!(numer.rdiv(denom, RoundMode::Ceil), Ok(ceil));
    assert_eq!(numer.rdiv(denom, RoundMode::Floor), Ok(floor));

    let (numer, denom) = (fp("100"), fp("-3"));
    let ceil = fp("-33.333333333");
    let floor = fp("-33.333333334");
    assert_eq!(numer.rdiv(denom, RoundMode::Ceil), Ok(ceil));
    assert_eq!(numer.rdiv(denom, RoundMode::Floor), Ok(floor));
}

#[test]
fn tests_rdiv_division_by_zero() {
    assert_eq!(
        Fp64::max_value().rdiv(Fp64::zero(), RoundMode::Ceil),
        Err(ArithmeticError::DivisionByZero)
    );
}

#[test]
fn tests_rdiv_overflow() {
    assert_eq!(
        Fp64::max_value().rdiv(fp("0.5"), RoundMode::Ceil),
        Err(ArithmeticError::Overflow)
    );
}

#[test]
fn tests_float_mul() {
    let a = Fp64::try_from(525).unwrap();
    let b = Fp64::try_from(10).unwrap();
    assert_eq!(a.rmul(b, Ceil), Ok(Fp64::try_from(5250).unwrap()));

    let a = Fp64::try_from(525).unwrap();
    let b = Fp64::from_str("0.0001").unwrap();
    assert_eq!(a.rmul(b, Ceil), Ok(Fp64::from_str("0.0525").unwrap()));

    let a = Fp64::max_value();
    let b = Fp64::try_from(1).unwrap();
    assert_eq!(a.rmul(b, Ceil), Ok(Fp64::max_value()));

    let a = Fp64::from_bits(i64::MAX / 10 * 10);
    let b = Fp64::from_str("0.1").unwrap();
    assert_eq!(a.rmul(b, Ceil), Ok(Fp64::from_bits(i64::MAX / 10)));
}

#[test]
fn tests_float_mul_overflow() {
    let a = Fp64::try_from(140_000).unwrap();
    assert!(a.rmul(a, Ceil).is_err());

    let a = Fp64::try_from(-140_000).unwrap();
    let b = Fp64::try_from(140_000).unwrap();
    assert!(a.rmul(b, Ceil).is_err());
}

fn assert_half_sum(a: &str, b: &str, r: &str) {
    let a = fp(a);
    let b = fp(b);
    let r = fp(r);
    assert_eq!(Fp64::half_sum(a, b), r);
}

#[test]
fn tests_half_sum() {
    assert_half_sum("1", "3", "2");
    assert_half_sum("1", "2", "1.5");
    assert_half_sum("9000", "9050", "9025");
    assert_half_sum("9000", "-9000", "0");
    assert_half_sum("9000000000", "9000000002", "9000000001");
    assert_half_sum(
        "9000000000.000000001",
        "-9000000000.000000005",
        "-0.000000002",
    );
    assert_half_sum("7.123456789", "7.123456788", "7.123456788");
}

#[test]
fn tests_integral() {
    let a = fp("0.0001");
    assert_eq!(a.integral(RoundMode::Floor), 0);
    assert_eq!(a.integral(RoundMode::Ceil), 1);

    let b = fp("-0.0001");
    assert_eq!(b.integral(RoundMode::Floor), -1);
    assert_eq!(b.integral(RoundMode::Ceil), 0);

    let c = Fp64::zero();
    assert_eq!(c.integral(RoundMode::Floor), 0);
    assert_eq!(c.integral(RoundMode::Ceil), 0);

    let d = fp("2.0001");
    assert_eq!(d.integral(RoundMode::Floor), 2);
    assert_eq!(d.integral(RoundMode::Ceil), 3);

    let e = fp("-2.0001");
    assert_eq!(e.integral(RoundMode::Floor), -3);
    assert_eq!(e.integral(RoundMode::Ceil), -2);
}

#[test]
fn tests_round_towards_zero_by() {
    let a = fp("1234.56789");
    assert_eq!(a.round_towards_zero_by(fp("100")), fp("1200"));
    assert_eq!(a.round_towards_zero_by(fp("10")), fp("1230"));
    assert_eq!(a.round_towards_zero_by(fp("1")), fp("1234"));
    assert_eq!(a.round_towards_zero_by(fp("0.1")), fp("1234.5"));
    assert_eq!(a.round_towards_zero_by(fp("0.01")), fp("1234.56"));
    assert_eq!(a.round_towards_zero_by(fp("0.001")), fp("1234.567"));
    assert_eq!(a.round_towards_zero_by(fp("0.0001")), fp("1234.5678"));
    assert_eq!(a.round_towards_zero_by(fp("0.00001")), fp("1234.56789"));

    let b = fp("-1234.56789");
    assert_eq!(b.round_towards_zero_by(fp("100")), fp("-1200"));
    assert_eq!(b.round_towards_zero_by(fp("10")), fp("-1230"));
    assert_eq!(b.round_towards_zero_by(fp("1")), fp("-1234"));
    assert_eq!(b.round_towards_zero_by(fp("0.1")), fp("-1234.5"));
    assert_eq!(b.round_towards_zero_by(fp("0.01")), fp("-1234.56"));
    assert_eq!(b.round_towards_zero_by(fp("0.001")), fp("-1234.567"));
    assert_eq!(b.round_towards_zero_by(fp("0.0001")), fp("-1234.5678"));
    assert_eq!(b.round_towards_zero_by(fp("0.00001")), fp("-1234.56789"));
}

#[test]
fn tests_next_power_of_ten() {
    assert_eq!(fp("0").next_power_of_ten().unwrap(), fp("0.000000001"));
    assert_eq!(fp("0.000000001").next_power_of_ten().unwrap(), fp("0.000000001"));
    assert_eq!(fp("0.000000002").next_power_of_ten().unwrap(), fp("0.00000001"));
    assert_eq!(fp("0.000000009").next_power_of_ten().unwrap(), fp("0.00000001"));
    assert_eq!(fp("0.00000001").next_power_of_ten().unwrap(), fp("0.00000001"));
    assert_eq!(fp("0.00000002").next_power_of_ten().unwrap(), fp("0.0000001"));
    assert_eq!(fp("0.1").next_power_of_ten().unwrap(), fp("0.1"));
    assert_eq!(fp("0.100000001").next_power_of_ten().unwrap(), fp("1"));
    assert_eq!(fp("1").next_power_of_ten().unwrap(), fp("1"));
    assert_eq!(fp("2").next_power_of_ten().unwrap(), fp("10"));
    assert_eq!(fp("1234567").next_power_of_ten().unwrap(), fp("10000000"));
    assert_eq!(
        fp("923372036.854775807").next_power_of_ten().unwrap(),
        fp("1000000000")
    );
    assert_eq!(
        fp("9223372036.854775807").next_power_of_ten(),
        Err(ArithmeticError::Overflow)
    );

    assert_eq!(
        fp("-0.000000001").next_power_of_ten().unwrap(),
        fp("-0.000000001")
    );
    assert_eq!(fp("-0.000000002").next_power_of_ten().unwrap(), fp("-0.00000001"));
    assert_eq!(fp("-0.000000009").next_power_of_ten().unwrap(), fp("-0.00000001"));
    assert_eq!(fp("-0.00000001").next_power_of_ten().unwrap(), fp("-0.00000001"));
    assert_eq!(fp("-0.00000002").next_power_of_ten().unwrap(), fp("-0.0000001"));
    assert_eq!(fp("-0.1").next_power_of_ten().unwrap(), fp("-0.1"));
    assert_eq!(fp("-0.2").next_power_of_ten().unwrap(), fp("-1"));
    assert_eq!(fp("-1").next_power_of_ten().unwrap(), fp("-1"));
    assert_eq!(fp("-0.100000001").next_power_of_ten().unwrap(), fp("-1"));
    assert_eq!(fp("-1234567").next_power_of_ten().unwrap(), fp("-10000000"));
    assert_eq!(
        fp("-923372036.854775808").next_power_of_ten().unwrap(),
        fp("-1000000000")
    );
    assert_eq!(
        fp("-9223372036.854775807").next_power_of_ten(),
        Err(ArithmeticError::Overflow)
    );
    assert_eq!(
        fp("-9223372036.854775808").next_power_of_ten(),
        Err(ArithmeticError::Overflow)
    );
}

fn assert_rounding_to_i64(x: &str, r: i64) {
    let f = Fp64::from_str(x).unwrap();
    assert_eq!(f.rounding_to_i64(), r);
}

#[test]
fn tests_rounding_to_i64() {
    assert_rounding_to_i64("0", 0);
    assert_rounding_to_i64("42", 42);
    assert_rounding_to_i64("1.4", 1);
    assert_rounding_to_i64("1.6", 2);
    assert_rounding_to_i64("-1.4", -1);
    assert_rounding_to_i64("-1.6", -2);
    assert_rounding_to_i64("0.4999", 0);
    assert_rounding_to_i64("0.5", 1);
    assert_rounding_to_i64("0.5001", 1);
}
