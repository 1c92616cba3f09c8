use std::str::FromStr;

use bignum::bigdecimal::BigDecimal;
use bignum::biginteger::BigInteger;
use bignum::errors::NumericError;

#[test]
fn test_scale_down() {
    let bigint = BigInteger::from_u128(1000000);
    let bigdecimal = bigint.scale_down(6).unwrap();
    assert_eq!(bigdecimal, BigDecimal::one());
}

#[test]
fn test_div() {
    let d = BigDecimal::from(&BigInteger::from_u128(100000000000000000000), 0).unwrap();
    let i = BigInteger::from_u128(100000000000000000000);
    assert_eq!(i.div_dec(&d).unwrap(), BigDecimal::one());
}

#[test]
fn test_sum() {
    let vector: Vec<BigInteger> = vec![
        BigInteger::from_u128(1),
        BigInteger::from_u128(2),
        BigInteger::from_u128(3),
    ];
    assert_eq!(BigInteger::sum(&vector).unwrap(), BigInteger::from_u128(6));
    assert_eq!(BigInteger::sum(&vector).unwrap(), BigInteger::from_u128(6));
}

#[test]
fn sum_of_empty_sequence_is_zero() {
    let empty: Vec<BigInteger> = vec![];
    assert_eq!(BigInteger::sum(&empty).unwrap(), BigInteger::zero());
    let empty_dec: Vec<BigDecimal> = vec![];
    assert_eq!(BigDecimal::sum(&empty_dec).unwrap(), BigDecimal::zero());
}

#[test]
fn sum_propagates_overflow() {
    let vector = vec![BigInteger::max_value(), BigInteger::from_u128(1)];
    assert_eq!(BigInteger::sum(&vector), Err(NumericError::Overflow));
}

#[test]
fn checked_arithmetic_exact_values() {
    let a = BigInteger::from_u128(41);
    let b = BigInteger::from_u128(1);
    assert_eq!(a.add(&b).unwrap(), BigInteger::from_u128(42));
    assert_eq!(a.sub(&b).unwrap(), BigInteger::from_u128(40));
    assert_eq!(a.mul(&b).unwrap(), BigInteger::from_u128(41));
    let c = BigInteger::from_u128(7);
    let d = BigInteger::from_u128(2);
    assert_eq!(c.mul(&d).unwrap(), BigInteger::from_u128(14));
    assert_eq!(c.div(&d).unwrap(), BigInteger::from_u128(3));
}

#[test]
fn arithmetic_error_variants() {
    let one = BigInteger::from_u128(1);
    let two = BigInteger::from_u128(2);
    assert_eq!(BigInteger::max_value().add(&one), Err(NumericError::Overflow));
    assert_eq!(one.sub(&two), Err(NumericError::Underflow));
    assert_eq!(BigInteger::max_value().mul(&two), Err(NumericError::Overflow));
    assert_eq!(one.div(&BigInteger::zero()), Err(NumericError::DivideByZero));
    assert_eq!(two.pow(256), Err(NumericError::Overflow));
    assert_eq!(
        BigInteger::max_value().to_uint128(),
        Err(NumericError::ConversionOverflow)
    );
}

#[test]
fn saturating_sub_matches_checked_sub() {
    let five = BigInteger::from_u128(5);
    let three = BigInteger::from_u128(3);
    assert_eq!(five.saturating_sub(&three), five.sub(&three).unwrap());
    assert_eq!(three.saturating_sub(&five), BigInteger::zero());
    assert_eq!(three.sub(&five), Err(NumericError::Underflow));

    let a = BigDecimal::one();
    let b = BigDecimal::percent(50);
    assert_eq!(a.saturating_sub(&b), a.sub(&b).unwrap());
    assert_eq!(b.saturating_sub(&a), BigDecimal::zero());
    assert_eq!(b.sub(&a), Err(NumericError::Underflow));
}

#[test]
fn pow_and_scaling() {
    let two = BigInteger::from_u128(2);
    assert_eq!(two.pow(10).unwrap(), BigInteger::from_u128(1024));
    assert_eq!(two.pow(0).unwrap(), BigInteger::from_u128(1));
    assert_eq!(
        BigInteger::from_u128(5).scale_up(2).unwrap(),
        BigInteger::from_u128(500)
    );
    assert_eq!(
        BigInteger::create_with_scale(5, 3).unwrap(),
        BigInteger::from_u128(5000)
    );
    assert_eq!(BigInteger::max_value().scale_up(1), Err(NumericError::Overflow));
}

#[test]
fn integer_parse_and_format() {
    assert_eq!(BigInteger::parse("123").unwrap(), BigInteger::from_u128(123));
    assert_eq!(BigInteger::parse("0").unwrap(), BigInteger::zero());
    assert_eq!(BigInteger::parse(""), Err(NumericError::ParseError));
    assert_eq!(BigInteger::parse("12a"), Err(NumericError::ParseError));
    assert_eq!(BigInteger::parse("-5"), Err(NumericError::ParseError));
    assert_eq!(BigInteger::parse("1.5"), Err(NumericError::ParseError));
    assert_eq!(BigInteger::from_u128(123).format().as_str(), "123");
    assert_eq!(BigInteger::zero().format().as_str(), "0");
    let text = "115792089237316195423570985008687907853269984665640564039457584007913129639935";
    let max = BigInteger::parse(text).unwrap();
    assert_eq!(max, BigInteger::max_value());
    assert_eq!(max.format().as_str(), text);
    let over = "115792089237316195423570985008687907853269984665640564039457584007913129639936";
    assert_eq!(BigInteger::parse(over), Err(NumericError::ParseError));
}

#[test]
fn decimal_parse_exact_values() {
    assert_eq!(BigDecimal::parse("1.000000").unwrap(), BigDecimal::one());
    assert_eq!(
        BigDecimal::parse("0.5").unwrap(),
        BigDecimal::from_ratio(&BigInteger::from_u128(1), &BigInteger::from_u128(2)).unwrap()
    );
    assert_eq!(
        BigDecimal::parse("1.5").unwrap(),
        BigDecimal::new(BigInteger::from_u128(1500000000000000000))
    );
    assert_eq!(BigDecimal::parse("42").unwrap().to_integer(), BigInteger::from_u128(42));
}

#[test]
fn decimal_parse_error_variants() {
    assert_eq!(
        BigDecimal::parse("1.2345678901234567891"),
        Err(NumericError::TooManyFractionalDigits)
    );
    assert_eq!(BigDecimal::parse("1.2.3"), Err(NumericError::UnexpectedFormat));
    assert_eq!(BigDecimal::parse(""), Err(NumericError::ParseError));
    assert_eq!(BigDecimal::parse(".5"), Err(NumericError::ParseError));
    assert_eq!(BigDecimal::parse("1."), Err(NumericError::ParseError));
    assert_eq!(BigDecimal::parse("1.x"), Err(NumericError::ParseError));
    let big = "115792089237316195423570985008687907853269984665640564039458";
    assert_eq!(BigDecimal::parse(big), Err(NumericError::Overflow));
}

#[test]
fn decimal_format_round_trip() {
    for text in ["0", "1", "1.5", "0.5", "123.456", "0.000000000000000001", "7.25"] {
        let value = BigDecimal::parse(text).unwrap();
        assert_eq!(value.format().as_str(), text);
        assert_eq!(BigDecimal::parse(value.format().as_str()).unwrap(), value);
    }
    assert_eq!(BigDecimal::parse("1.100").unwrap().format().as_str(), "1.1");
    assert_eq!(BigDecimal::parse("1.000000").unwrap().format().as_str(), "1");
    assert_eq!(BigDecimal::one().format().as_str(), "1");
}

#[test]
fn percent_is_from_ratio() {
    for x in [0u64, 1, 50, 100, 12345] {
        assert_eq!(
            BigDecimal::percent(x),
            BigDecimal::from_ratio(&BigInteger::from_u128(x as u128), &BigInteger::from_u128(100))
                .unwrap()
        );
    }
    assert_eq!(BigDecimal::percent(100), BigDecimal::one());
}

#[test]
fn from_ratio_exact_values() {
    let third = BigDecimal::from_ratio(&BigInteger::from_u128(1), &BigInteger::from_u128(3)).unwrap();
    assert_eq!(third, BigDecimal::new(BigInteger::from_u128(333333333333333333)));
    assert_eq!(
        BigDecimal::from_ratio(&BigInteger::from_u128(1), &BigInteger::zero()),
        Err(NumericError::DivideByZero)
    );
}

#[test]
fn integer_decimal_round_trip() {
    let a = BigInteger::from_u128(12345);
    let d = BigDecimal::from(&a, 0).unwrap();
    assert_eq!(d.scale_up(0).unwrap(), a);
    let b = BigInteger::from_u128(1000000);
    assert_eq!(b.scale_down(6).unwrap().scale_up(6).unwrap(), b);
}

#[test]
fn is_ratio_holds_exactly_on_unit_interval() {
    assert!(BigDecimal::zero().is_ratio());
    assert!(BigDecimal::one().is_ratio());
    assert!(BigDecimal::percent(50).is_ratio());
    assert!(!BigDecimal::parse("1.000000000000000001").unwrap().is_ratio());
    assert!(!BigDecimal::parse("2").unwrap().is_ratio());
}

#[test]
fn move_point_round_trip() {
    let value = BigDecimal::parse("1.5").unwrap();
    let shifted = value.move_point_right(3).unwrap();
    assert_eq!(shifted, BigDecimal::parse("1500").unwrap());
    assert_eq!(shifted.move_point_left(3).unwrap(), value);
    assert_eq!(
        BigDecimal::parse("0.25").unwrap().move_point_left(2).unwrap(),
        BigDecimal::parse("0.0025").unwrap()
    );
}

#[test]
fn decimal_arithmetic_exact_values() {
    let half = BigDecimal::percent(50);
    let quarter = BigDecimal::percent(25);
    assert_eq!(half.add(&quarter).unwrap(), BigDecimal::percent(75));
    assert_eq!(half.sub(&quarter).unwrap(), quarter);
    assert_eq!(half.mul(&half).unwrap(), quarter);
    assert_eq!(quarter.div(&half).unwrap(), half);
    assert_eq!(half.div(&BigDecimal::zero()), Err(NumericError::DivideByZero));
    assert_eq!(
        BigDecimal::max_value().add(&BigDecimal::parse("0.000000000000000001").unwrap()),
        Err(NumericError::Overflow)
    );
}

#[test]
fn mixed_integer_decimal_arithmetic() {
    let half = BigDecimal::percent(50);
    let four = BigInteger::from_u128(4);
    assert_eq!(half.mul_int(&four).unwrap(), BigDecimal::parse("2").unwrap());
    assert_eq!(four.mul_dec(&half).unwrap(), BigDecimal::parse("2").unwrap());
    let five = BigDecimal::parse("5").unwrap();
    assert_eq!(five.div_int(&BigInteger::from_u128(2)).unwrap(), BigDecimal::parse("2.5").unwrap());
    assert_eq!(
        five.div_int(&BigInteger::zero()),
        Err(NumericError::DivideByZero)
    );
}

#[test]
fn narrowing_and_constants() {
    assert_eq!(BigInteger::from_u128(77).to_uint128().unwrap(), 77u128);
    assert_eq!(BigInteger::min_value(), BigInteger::zero());
    assert_eq!(BigDecimal::min_value(), BigDecimal::zero());
    assert!(BigInteger::zero().is_zero());
    assert!(!BigInteger::from_u128(1).is_zero());
    assert!(BigDecimal::zero().is_zero());
    assert!(!BigDecimal::one().is_zero());
    assert_eq!(BigDecimal::new(BigInteger::from_u128(5)).numerator(), BigInteger::from_u128(5));
}

#[test]
fn byte_codecs_round_trip() {
    let one = BigInteger::from_u128(1);
    let be = one.to_be_bytes();
    assert_eq!(be.len(), 32);
    assert_eq!(be[31], 1);
    assert!(be[..31].iter().all(|b| *b == 0));
    let le = one.to_le_bytes();
    assert_eq!(le[0], 1);
    assert!(le[1..].iter().all(|b| *b == 0));
    let value = BigInteger::parse("340282366920938463463374607431768211456").unwrap();
    assert_eq!(BigInteger::from_be_bytes(&value.to_be_bytes()), value);
    assert_eq!(BigInteger::from_le_bytes(&value.to_le_bytes()), value);
    let mut rev = value.to_be_bytes();
    rev.reverse();
    assert_eq!(BigInteger::from_le_bytes(&rev), value);
}

#[test]
fn big_endian_encoding_preserves_order() {
    let values = [
        BigInteger::zero(),
        BigInteger::from_u128(1),
        BigInteger::from_u128(255),
        BigInteger::from_u128(256),
        BigInteger::from_u128(1u128 << 64),
        BigInteger::parse("340282366920938463463374607431768211456").unwrap(),
        BigInteger::max_value(),
    ];
    for window in values.windows(2) {
        assert!(window[0] < window[1]);
        assert!(window[0].to_be_bytes() < window[1].to_be_bytes());
    }
}

#[test]
fn in_place_combinators() {
    let mut a = BigInteger::from_u128(10);
    a.add_assign(&BigInteger::from_u128(5)).unwrap();
    assert_eq!(a, BigInteger::from_u128(15));
    a.sub_assign(&BigInteger::from_u128(3)).unwrap();
    assert_eq!(a, BigInteger::from_u128(12));
    a.mul_assign(&BigInteger::from_u128(2)).unwrap();
    assert_eq!(a, BigInteger::from_u128(24));
    a.div_assign(&BigInteger::from_u128(6)).unwrap();
    assert_eq!(a, BigInteger::from_u128(4));
    assert_eq!(
        a.div_assign(&BigInteger::zero()),
        Err(NumericError::DivideByZero)
    );
    assert_eq!(a, BigInteger::from_u128(4));

    let mut d = BigDecimal::percent(50);
    d.add_assign(&BigDecimal::percent(25)).unwrap();
    assert_eq!(d, BigDecimal::percent(75));
    d.sub_assign(&BigDecimal::percent(25)).unwrap();
    assert_eq!(d, BigDecimal::percent(50));
    d.mul_assign(&BigDecimal::percent(50)).unwrap();
    assert_eq!(d, BigDecimal::percent(25));
}

#[test]
fn rescaling_beyond_fixed_scale_floors() {
    let d = BigDecimal::from(&BigInteger::from_u128(12345), 20).unwrap();
    assert_eq!(d.numerator(), BigInteger::from_u128(123));
}

#[test]
fn uint256_conversions_round_trip() {
    let text = "123456789012345678901234567890123456789012345678";
    let value = BigInteger::parse(text).unwrap();
    let raw = value.to_uint256();
    assert_eq!(BigInteger::from_uint256(raw), value);
    assert_eq!(raw, cosmwasm_std::Uint256::from_str(text).unwrap());
}
