use interpreter::error::{Error, ParseErrorKind};
use interpreter::fixed::Real;

/// A float taken to 16.16 the way a float literal is: scaled and truncated.
fn real_from_float(f: f32) -> Real {
    Real::from_bits((f * 65536.0) as i32)
}

#[test]
fn test_real_int_comp() {
    let a = Real::from(64);
    let b = Real::parse("64.0").unwrap();
    let c = real_from_float(64.);
    assert!(a == b);
    assert!(a == c);
}

#[test]
fn test_real_fraction_comp() {
    let a = Real::parse("3.14").unwrap();
    let b = real_from_float(3.14);
    assert!(a == b);
}

#[test]
fn test_real_parse() {
    assert!(Real::parse("3.14").is_ok());
    assert!(Real::parse("0.0").is_ok());
    assert!(Real::parse("1034.9999").is_ok());
}

#[test]
fn test_real_add() {
    let a = Real::from(97);
    let b = real_from_float(3.0);
    assert!(a + b == Real::from(100));
}

#[test]
fn test_real_sub() {
    let a = real_from_float(3.5);
    let b = real_from_float(3.0);
    assert!(a - b == real_from_float(0.5));
}

#[test]
fn test_real_mul() {
    let a = Real::from(2);
    let b = real_from_float(2.0);
    assert!(a * b == Real::from(4));
}

#[test]
fn test_real_div() {
    let a = Real::from(25);
    let b = real_from_float(5.0);
    assert!(a / b == Ok(Real::from(5)));
}

#[test]
fn parse_values() {
    assert_eq!(Real::parse("64"), Ok(Real::from(64)));
    assert_eq!(Real::parse("64"), Real::parse("64.0"));
    assert_eq!(Real::parse("3.14").unwrap().to_bits(), 205783);
    assert_eq!(Real::parse("1034.9999").unwrap().to_bits(), 1034 * 65536 + 65529);
    assert_eq!(Real::parse("-1.5").unwrap().to_bits(), -98304);
    assert_eq!(Real::parse("-0.5").unwrap().to_bits(), 32768);
    assert_eq!(Real::parse("+2.25").unwrap().to_bits(), 147456);
    assert_eq!(Real::parse("3.").unwrap(), Real::from(3));
    assert_eq!(Real::parse("-32768").unwrap().to_bits(), i32::MIN);
    assert_eq!(Real::parse("32767.99999").unwrap().to_bits(), 32767 * 65536 + 65535);
    assert_eq!(Real::parse("0.00001").unwrap().to_bits(), 0);
}

#[test]
fn parse_errors() {
    assert_eq!(Real::parse("."), Err(ParseErrorKind::BadRealLiteral));
    assert_eq!(Real::parse(""), Err(ParseErrorKind::BadRealLiteral));
    assert_eq!(Real::parse(".5"), Err(ParseErrorKind::BadRealLiteral));
    assert_eq!(Real::parse("-"), Err(ParseErrorKind::BadRealLiteral));
    assert_eq!(Real::parse("3.x"), Err(ParseErrorKind::BadRealLiteral));
    assert_eq!(Real::parse("1e5"), Err(ParseErrorKind::BadRealLiteral));
    assert_eq!(Real::parse("32768"), Err(ParseErrorKind::LargeInt));
    assert_eq!(Real::parse("-32768.5"), Err(ParseErrorKind::LargeInt));
    assert_eq!(Real::parse("99999999999999"), Err(ParseErrorKind::LargeInt));
}

#[test]
fn integer_text_round_trip() {
    for n in [-32768, -1000, -1, 0, 1, 7, 32767] {
        let r = Real::parse(&n.to_string()).unwrap();
        assert_eq!(r.to_int(), n);
        assert_eq!(r, Real::from(n));
    }
    assert_eq!(Real::parse("-1.5").unwrap().to_int(), -2);
}

#[test]
fn from_int_sums_are_exact() {
    for (a, b) in [(1000, -250), (-32768, 32767), (12, 30), (40000, -40000)] {
        assert_eq!(Real::from(a) + Real::from(b), Real::from(a + b));
    }
    assert_eq!(Real::from(1000).to_bits(), 1000 * 65536);
}

#[test]
fn arithmetic_wraps() {
    assert_eq!(Real::from_bits(i32::MAX) + Real::from_bits(1), Real::from_bits(i32::MIN));
    assert_eq!(Real::from_bits(i32::MIN) - Real::from_bits(1), Real::from_bits(i32::MAX));
    assert_eq!((Real::from(200) * Real::from(200)).to_bits(), -1673527296);
    assert_eq!(Real::from(40000).to_bits(), (40000i64 * 65536 - 4294967296) as i32);
}

#[test]
fn multiply_and_divide() {
    let a = Real::parse("3.14").unwrap();
    let b = Real::parse("-2.5").unwrap();
    assert_eq!((a * b).to_bits(), -514458);
    assert_eq!(Real::parse("-1.5").unwrap() * Real::from_bits(1), Real::from_bits(-2));
    assert_eq!(Real::from(7) / Real::from(2), Ok(Real::parse("3.5").unwrap()));
    assert_eq!(Real::from(-7) / Real::from_bits(2 * 65536 + 1), Ok(Real::from_bits(-229374)));
    assert_eq!(Real::from(1) / Real::from_bits(0), Err(Error::DivisionByZero));
}

#[test]
fn multiply_then_divide_comes_back() {
    for (x, y) in [("3.14", "2.5"), ("-100.125", "7.75"), ("0.001", "-1"), ("123.456", "-99.9")] {
        let a = Real::parse(x).unwrap();
        let b = Real::parse(y).unwrap();
        let back = ((a * b) / b).unwrap();
        assert!((back.to_bits() - a.to_bits()).abs() <= 1);
    }
}

#[test]
fn ordering_is_by_value() {
    assert!(Real::parse("-1.5").unwrap() < Real::from(0));
    assert!(Real::parse("-0.5").unwrap() > Real::from(0));
    assert!(Real::from(3) > Real::parse("2.99").unwrap());
}

#[test]
fn integer_operands() {
    let x = Real::parse("1.5").unwrap();
    assert_eq!(Real::from(3) + 2, Real::from(5));
    assert_eq!(x - 1, Real::parse("0.5").unwrap());
    assert_eq!(x * 3, Real::parse("4.5").unwrap());
    assert_eq!(Real::parse("4.5").unwrap() / 3, Ok(x));
    assert_eq!(Real::from_bits(-7) / 2, Ok(Real::from_bits(-3)));
    assert_eq!(Real::from_bits(i32::MIN) / -1, Ok(Real::from_bits(i32::MIN)));
    assert_eq!(x / 0, Err(Error::DivisionByZero));
    assert_eq!(Real::from_bits(i32::MAX) + 1, Real::from_bits(i32::MAX.wrapping_add(65536)));
}
