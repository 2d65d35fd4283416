use fixnum::fixed128::cmul_i128;
use fixnum::fixed128::rdiv_i128;
use fixnum::fixed64::cmul_i64;
use fixnum::fixed64::rdiv_i64;
use fixnum::ArithmeticError;
use fixnum::ConvertError;
use fixnum::FixedPoint128;
use fixnum::FixedPoint64;
use fixnum::RoundMode;

type Fp64 = FixedPoint64<9>;
type Fp128 = FixedPoint128<18>;

fn fp64(s: &str) -> Fp64 {
    Fp64::from_str(s).unwrap()
}

fn fp128(s: &str) -> Fp128 {
    Fp128::from_str(s).unwrap()
}

fn samples64() -> Vec<Fp64> {
    let bits: [i64; 13] = [
        0,
        1,
        -1,
        7,
        -7,
        1_000_000_000,
        -1_000_000_000,
        3_333_333_333,
        -123_456_789_123,
        i64::MAX,
        i64::MIN,
        i64::MAX - 1,
        i64::MIN + 1,
    ];
    bits.iter().map(|b| Fp64::from_bits(*b)).collect()
}

fn samples128() -> Vec<Fp128> {
    let bits: [i128; 13] = [
        0,
        1,
        -1,
        7,
        -7,
        1_000_000_000_000_000_000,
        -1_000_000_000_000_000_000,
        3_333_333_333_333_333_333,
        -123_456_789_123_456_789_123,
        i128::MAX,
        i128::MIN,
        i128::MAX - 1,
        i128::MIN + 1,
    ];
    bits.iter().map(|b| Fp128::from_bits(*b)).collect()
}

#[test]
fn rmul_commutes() {
    for x in samples64() {
        for y in samples64() {
            assert_eq!(x.rmul(y, RoundMode::Ceil), y.rmul(x, RoundMode::Ceil));
            assert_eq!(x.rmul(y, RoundMode::Floor), y.rmul(x, RoundMode::Floor));
        }
    }
    for x in samples128() {
        for y in samples128() {
            assert_eq!(x.rmul(y, RoundMode::Ceil), y.rmul(x, RoundMode::Ceil));
            assert_eq!(x.rmul(y, RoundMode::Floor), y.rmul(x, RoundMode::Floor));
        }
    }
}

#[test]
fn both_layouts_agree_at_one_precision() {
    for x in samples64() {
        for y in samples64() {
            let wide_x = FixedPoint128::<9>::from_bits(x.into_bits() as i128);
            let wide_y = FixedPoint128::<9>::from_bits(y.into_bits() as i128);
            for mode in [RoundMode::Ceil, RoundMode::Floor] {
                if let Ok(p) = x.rmul(y, mode) {
                    assert_eq!(
                        wide_x.rmul(wide_y, mode).unwrap().into_bits(),
                        p.into_bits() as i128
                    );
                } else {
                    let p = wide_x.rmul(wide_y, mode).unwrap().into_bits();
                    assert!(p > i64::MAX as i128 || p < i64::MIN as i128);
                }
                if y.into_bits() != 0 {
                    if let Ok(q) = x.rdiv(y, mode) {
                        assert_eq!(
                            wide_x.rdiv(wide_y, mode).unwrap().into_bits(),
                            q.into_bits() as i128
                        );
                    } else {
                        let q = wide_x.rdiv(wide_y, mode).unwrap().into_bits();
                        assert!(q > i64::MAX as i128 || q < i64::MIN as i128);
                    }
                }
            }
        }
    }
}

#[test]
fn rounding_is_sign_symmetric() {
    for x in samples64() {
        if let Ok(nx) = x.cneg() {
            for u in samples64() {
                if u.into_bits() != 0 {
                    let r = x.round_towards_zero_by(u);
                    assert_eq!(nx.round_towards_zero_by(u).cneg(), Ok(r));
                }
            }
            if x.into_bits() != 0 {
                if let (Ok(a), Ok(b)) = (x.next_power_of_ten(), nx.next_power_of_ten()) {
                    assert_eq!(b.cneg(), Ok(a));
                }
            }
        }
    }
    for x in samples128() {
        if let Ok(nx) = x.cneg() {
            for u in samples128() {
                if u.into_bits() != 0 {
                    let r = x.round_towards_zero_by(u);
                    assert_eq!(nx.round_towards_zero_by(u).cneg(), Ok(r));
                }
            }
            if x.into_bits() != 0 {
                if let (Ok(a), Ok(b)) = (x.next_power_of_ten(), nx.next_power_of_ten()) {
                    assert_eq!(b.cneg(), Ok(a));
                }
            }
        }
    }
}

#[test]
fn text_round_trips() {
    for x in samples64() {
        let text = x.to_string();
        assert_eq!(Fp64::from_str(&text), Ok(x));
        assert_eq!(Fp64::from_str(&text).unwrap().to_string(), text);
    }
    for x in samples128() {
        let text = x.to_string();
        assert_eq!(Fp128::from_str(&text), Ok(x));
        assert_eq!(Fp128::from_str(&text).unwrap().to_string(), text);
    }
    assert_eq!(Fp64::max_value().to_string(), "9223372036.854775807");
    assert_eq!(Fp64::min_value().to_string(), "-9223372036.854775808");
    assert_eq!(
        Fp128::min_value().to_string(),
        "-170141183460469231731.687303715884105728"
    );
    assert_eq!(fp64("-9223372036.854775808"), Fp64::min_value());
    assert_eq!(fp64("007.50"), Fp64::from_bits(7_500_000_000));
    assert_eq!(fp64("-0.000"), Fp64::zero());
    assert_eq!(Fp64::from_bits(1_230_000_000).to_bytes(), b"1.23".to_vec());
    assert_eq!(Fp64::parse_bytes(b"+12.5"), Ok(Fp64::from_bits(12_500_000_000)));
}

#[test]
fn rdiv_brackets_the_quotient() {
    for x in samples64() {
        for y in samples64() {
            if y.into_bits() == 0 {
                continue;
            }
            let floor = x.rdiv(y, RoundMode::Floor);
            let ceil = x.rdiv(y, RoundMode::Ceil);
            if let (Ok(f), Ok(c)) = (floor, ceil) {
                let (f, c) = (f.into_bits() as i128, c.into_bits() as i128);
                let n = x.into_bits() as i128 * 1_000_000_000;
                let d = y.into_bits() as i128;
                assert!(f <= c && c - f <= 1);
                if d > 0 {
                    assert!(f * d <= n && n <= c * d);
                } else {
                    assert!(f * d >= n && n >= c * d);
                }
                assert_eq!(f == c, f * d == n);
            }
        }
    }
    for x in samples128() {
        for y in samples128() {
            if y.into_bits() == 0 {
                continue;
            }
            if let (Ok(f), Ok(c)) = (x.rdiv(y, RoundMode::Floor), x.rdiv(y, RoundMode::Ceil)) {
                let (f, c) = (f.into_bits(), c.into_bits());
                assert!(f <= c);
                assert!(c.checked_sub(f).unwrap() <= 1);
            }
        }
    }
}

#[test]
fn overflow_boundary() {
    assert_eq!(
        Fp64::max_value().rmul(Fp64::one(), RoundMode::Ceil),
        Ok(Fp64::max_value())
    );
    assert_eq!(
        Fp64::max_value().rmul(fp64("1.000000001"), RoundMode::Ceil),
        Err(ArithmeticError::Overflow)
    );
    assert_eq!(
        Fp128::max_value().rmul(Fp128::one(), RoundMode::Ceil),
        Ok(Fp128::max_value())
    );
    assert_eq!(
        Fp128::max_value().rmul(fp128("1.000000000000000001"), RoundMode::Ceil),
        Err(ArithmeticError::Overflow)
    );
    assert_eq!(
        Fp64::min_value().rmul(Fp64::one(), RoundMode::Floor),
        Ok(Fp64::min_value())
    );
    assert_eq!(
        Fp64::min_value().rmul(fp64("-1"), RoundMode::Floor),
        Err(ArithmeticError::Overflow)
    );
    assert_eq!(
        Fp128::min_value().rmul(fp128("-1"), RoundMode::Ceil),
        Err(ArithmeticError::Overflow)
    );
    // the quotient rounded towards zero fits, the one rounded away does not
    assert_eq!(
        Fp64::from_bits(i64::MAX).rdiv(fp64("1"), RoundMode::Ceil),
        Ok(Fp64::max_value())
    );
    assert_eq!(rdiv_i64(i64::MIN, -1, RoundMode::Ceil), Err(ArithmeticError::Overflow));
    assert_eq!(rdiv_i128(i128::MIN, -1, RoundMode::Floor), Err(ArithmeticError::Overflow));
    assert_eq!(rdiv_i128(i128::MIN, 1, RoundMode::Floor), Ok(i128::MIN));
    assert_eq!(rdiv_i128(i128::MIN, 3, RoundMode::Floor), Ok(i128::MIN / 3 - 1));
    assert_eq!(rdiv_i128(i128::MIN, 3, RoundMode::Ceil), Ok(i128::MIN / 3));
}

#[test]
fn division_by_zero() {
    for mode in [RoundMode::Ceil, RoundMode::Floor] {
        assert_eq!(
            Fp64::max_value().rdiv(Fp64::zero(), mode),
            Err(ArithmeticError::DivisionByZero)
        );
        assert_eq!(
            Fp128::max_value().rdiv(Fp128::zero(), mode),
            Err(ArithmeticError::DivisionByZero)
        );
        assert_eq!(fp64("1").rdiv_int(0, mode), Err(ArithmeticError::DivisionByZero));
        assert_eq!(fp128("1").rdiv_int(0, mode), Err(ArithmeticError::DivisionByZero));
        assert_eq!(rdiv_i64(5, 0, mode), Err(ArithmeticError::DivisionByZero));
        assert_eq!(rdiv_i128(5, 0, mode), Err(ArithmeticError::DivisionByZero));
    }
}

#[test]
fn saturation_clamps() {
    assert_eq!(Fp64::max_value().saturating_add(Fp64::one()), Fp64::max_value());
    assert_eq!(Fp64::min_value().saturating_add(fp64("-1")), Fp64::min_value());
    assert_eq!(Fp128::max_value().saturating_add(Fp128::one()), Fp128::max_value());
    assert_eq!(Fp128::min_value().saturating_add(fp128("-1")), Fp128::min_value());
    assert_eq!(Fp64::min_value().saturating_sub(Fp64::one()), Fp64::min_value());
    assert_eq!(Fp64::max_value().saturating_sub(fp64("-1")), Fp64::max_value());
    assert_eq!(Fp64::min_value().saturating_mul(-1), Fp64::max_value());
    assert_eq!(Fp64::min_value().saturating_mul(2), Fp64::min_value());
    assert_eq!(
        Fp64::min_value().saturating_rmul(Fp64::min_value(), RoundMode::Floor),
        Fp64::max_value()
    );
    assert_eq!(
        Fp128::min_value().saturating_rmul(Fp128::max_value(), RoundMode::Ceil),
        Fp128::min_value()
    );
}

#[test]
fn checked_operations() {
    assert_eq!(fp64("1.5").cadd(fp64("2.25")), Ok(fp64("3.75")));
    assert_eq!(fp64("1.5").csub(fp64("2.25")), Ok(fp64("-0.75")));
    assert_eq!(Fp64::max_value().cadd(Fp64::epsilon()), Err(ArithmeticError::Overflow));
    assert_eq!(Fp64::min_value().csub(Fp64::epsilon()), Err(ArithmeticError::Overflow));
    assert_eq!(Fp64::min_value().cneg(), Err(ArithmeticError::Overflow));
    assert_eq!(Fp128::min_value().cneg(), Err(ArithmeticError::Overflow));
    assert_eq!(Fp64::max_value().cneg(), Ok(Fp64::from_bits(-i64::MAX)));
    assert_eq!(fp64("1.5").cmul(-3), Ok(fp64("-4.5")));
    assert_eq!(cmul_i64(-3, fp64("1.5")), Ok(fp64("-4.5")));
    assert_eq!(cmul_i128(i128::MAX, fp128("1.5")), Err(ArithmeticError::Overflow));
    assert_eq!(Fp64::try_from(i64::MAX), Err(ArithmeticError::Overflow));
    assert_eq!(Fp64::try_from(-3), Ok(fp64("-3")));
    assert_eq!(fp128("1.5").cadd(fp128("2.25")), Ok(fp128("3.75")));
    assert_eq!(fp128("1.5").csub(fp128("2.25")), Ok(fp128("-0.75")));
    assert_eq!(Fp64::from_bits(42).into_bits(), 42);
    assert_eq!(Fp128::from_bits(-42).as_bits(), -42);
    assert_eq!(Fp64::precision(), 9);
    assert_eq!(Fp128::coef(), 1_000_000_000_000_000_000);
}

#[test]
fn half_sum_rounds_down() {
    assert_eq!(Fp64::half_sum(Fp64::from_bits(-1), Fp64::from_bits(-2)), Fp64::from_bits(-2));
    assert_eq!(Fp64::half_sum(Fp64::from_bits(1), Fp64::from_bits(-4)), Fp64::from_bits(-2));
    assert_eq!(Fp64::half_sum(Fp64::from_bits(1), Fp64::from_bits(2)), Fp64::from_bits(1));
    assert_eq!(Fp64::half_sum(Fp64::max_value(), Fp64::max_value()), Fp64::max_value());
    assert_eq!(Fp64::half_sum(Fp64::min_value(), Fp64::min_value()), Fp64::min_value());
    assert_eq!(Fp64::half_sum(Fp64::min_value(), Fp64::max_value()), Fp64::from_bits(-1));
    assert_eq!(Fp128::half_sum(Fp128::from_bits(-1), Fp128::from_bits(-2)), Fp128::from_bits(-2));
    assert_eq!(Fp128::half_sum(Fp128::from_bits(1), Fp128::from_bits(-4)), Fp128::from_bits(-2));
    assert_eq!(Fp128::half_sum(Fp128::max_value(), Fp128::max_value()), Fp128::max_value());
    assert_eq!(Fp128::half_sum(Fp128::min_value(), Fp128::min_value()), Fp128::min_value());
    assert_eq!(Fp128::half_sum(Fp128::min_value(), Fp128::max_value()), Fp128::from_bits(-1));
    assert_eq!(
        Fp64::half_sum(fp64("9000000000.000000001"), fp64("-9000000000.000000005")),
        fp64("-0.000000002")
    );
}

#[test]
fn rounding_ties_go_away_from_zero() {
    assert_eq!(fp64("0.5").rounding_to_i64(), 1);
    assert_eq!(fp64("-0.5").rounding_to_i64(), -1);
    assert_eq!(fp64("1.5").rounding_to_i64(), 2);
    assert_eq!(fp64("-1.5").rounding_to_i64(), -2);
    assert_eq!(fp64("2.499999999").rounding_to_i64(), 2);
    assert_eq!(fp64("-2.499999999").rounding_to_i64(), -2);
    assert_eq!(Fp64::max_value().rounding_to_i64(), 9223372037);
    assert_eq!(Fp64::min_value().rounding_to_i64(), -9223372037);
    assert_eq!(fp128("-0.5").rounding_to_i64(), -1);
    assert_eq!(fp128("0.499999999999999999").rounding_to_i64(), 0);
    assert_eq!(FixedPoint64::<0>::from_bits(-17).rounding_to_i64(), -17);
}

#[test]
fn edges_of_rounding_and_powers() {
    assert_eq!(Fp64::min_value().round_towards_zero_by(Fp64::from_bits(-1)), Fp64::min_value());
    assert_eq!(Fp128::min_value().round_towards_zero_by(Fp128::from_bits(-1)), Fp128::min_value());
    assert_eq!(
        Fp64::min_value().round_towards_zero_by(Fp64::from_bits(10)),
        Fp64::from_bits(-9223372036854775800)
    );
    assert_eq!(fp64("7").round_towards_zero_by(fp64("-2")), fp64("6"));
    assert_eq!(fp64("2").next_power_of_ten(), Ok(fp64("10")));
    assert_eq!(fp64("0").next_power_of_ten(), Ok(fp64("0.000000001")));
    assert_eq!(fp64("1000000000").next_power_of_ten(), Ok(fp64("1000000000")));
    assert_eq!(fp64("1000000000.000000001").next_power_of_ten(), Err(ArithmeticError::Overflow));
    assert_eq!(
        Fp128::from_bits(100_000_000_000_000_000_000_000_000_000_000_000_000).next_power_of_ten(),
        Ok(Fp128::from_bits(100_000_000_000_000_000_000_000_000_000_000_000_000))
    );
    assert_eq!(
        Fp128::from_bits(100_000_000_000_000_000_000_000_000_000_000_000_001).next_power_of_ten(),
        Err(ArithmeticError::Overflow)
    );
    assert_eq!(Fp64::min_value().integral(RoundMode::Floor), -9223372037);
    assert_eq!(Fp64::min_value().integral(RoundMode::Ceil), -9223372036);
    assert_eq!(Fp64::max_value().integral(RoundMode::Ceil), 9223372037);
    assert_eq!(Fp128::max_value().integral(RoundMode::Floor), 170141183460469231731);
    assert_eq!(rdiv_i64(7, 2, RoundMode::Ceil), Ok(4));
    assert_eq!(rdiv_i64(-7, 2, RoundMode::Ceil), Ok(-3));
    assert_eq!(rdiv_i64(-7, 2, RoundMode::Floor), Ok(-4));
}

#[test]
fn values_are_ordered_as_their_mantissas() {
    assert!(fp64("-1.5") < fp64("1.25"));
    assert!(fp64("1.25") <= fp64("1.250"));
    assert!(Fp64::max_value() > Fp64::min_value());
    assert!(fp128("-0.000000000000000001") < Fp128::zero());
    assert!(Fp128::one() >= fp128("1.0"));
}

#[test]
fn seven_by_three() {
    assert_eq!(fp64("7").rdiv(fp64("3"), RoundMode::Floor), Ok(fp64("2.333333333")));
    assert_eq!(fp64("7").rdiv(fp64("3"), RoundMode::Ceil), Ok(fp64("2.333333334")));
    assert_eq!(
        fp128("7").rdiv(fp128("3"), RoundMode::Floor),
        Ok(fp128("2.333333333333333333"))
    );
    assert_eq!(
        fp128("-7").rdiv(fp128("3"), RoundMode::Floor),
        Ok(fp128("-2.333333333333333334"))
    );
}

#[test]
fn conversion_errors() {
    assert_eq!(Fp64::from_str(""), Err(ConvertError::Malformed));
    assert_eq!(Fp64::from_str("-"), Err(ConvertError::Malformed));
    assert_eq!(Fp64::from_str("+"), Err(ConvertError::Malformed));
    assert_eq!(Fp64::from_str("1."), Err(ConvertError::Malformed));
    assert_eq!(Fp64::from_str(".5"), Err(ConvertError::Malformed));
    assert_eq!(Fp64::from_str("1.2.3"), Err(ConvertError::Malformed));
    assert_eq!(Fp64::from_str("--1"), Err(ConvertError::Malformed));
    assert_eq!(Fp64::from_str("7.02e5"), Err(ConvertError::Malformed));
    assert_eq!(Fp64::from_str("13.0000000001"), Err(ConvertError::PrecisionLoss));
    assert_eq!(Fp64::from_str("9223372036.854775808"), Err(ConvertError::Overflow));
    assert_eq!(Fp64::from_str("-9223372036.854775809"), Err(ConvertError::Overflow));
    assert_eq!(
        Fp64::from_str("99999999999999999999999999999999999999999999999"),
        Err(ConvertError::Overflow)
    );
    assert_eq!(
        Fp128::from_str("170141183460469231731.687303715884105728"),
        Err(ConvertError::Overflow)
    );
    assert_eq!(
        Fp128::from_str("-170141183460469231731.687303715884105728"),
        Ok(Fp128::min_value())
    );
    assert_eq!(Fp64::from_decimal(12345, -3), Ok(fp64("12.345")));
    assert_eq!(Fp64::from_decimal(1, -10), Err(ConvertError::PrecisionLoss));
    assert_eq!(Fp64::from_decimal(120, -11), Err(ConvertError::PrecisionLoss));
    assert_eq!(Fp64::from_decimal(1200, -11), Ok(Fp64::from_bits(12)));
    assert_eq!(Fp64::from_decimal(-1200, -11), Ok(Fp64::from_bits(-12)));
    assert_eq!(Fp64::from_decimal(1, 10), Err(ConvertError::Overflow));
    assert_eq!(Fp64::from_decimal(-1, 10), Err(ConvertError::Overflow));
    assert_eq!(Fp64::from_decimal(9, 9), Ok(fp64("9000000000")));
    assert_eq!(Fp64::from_decimal(0, i32::MAX), Ok(Fp64::zero()));
    assert_eq!(Fp64::from_decimal(0, i32::MIN), Ok(Fp64::zero()));
    assert_eq!(Fp64::from_decimal(5, i32::MIN), Err(ConvertError::PrecisionLoss));
    assert_eq!(Fp128::from_decimal(5, i32::MAX), Err(ConvertError::Overflow));
    assert_eq!(Fp128::from_decimal(-7, 2), Ok(fp128("-700")));
}
