use bposit_calc::bignum::Big;
use bposit_calc::rational::Rational;
use std::cmp::Ordering;

fn rat(v: i64) -> Rational {
    Rational::from_int(v)
}

fn dec(s: &str, sig: usize) -> String {
    // Parse a plain decimal literal for test convenience.
    let (neg, body) = match s.strip_prefix('-') {
        Some(b) => (true, b),
        None => (false, s),
    };
    let mut mantissa = Big::zero();
    let mut exp10 = 0i32;
    let mut after_point = false;
    for c in body.chars() {
        if c == '.' {
            after_point = true;
            continue;
        }
        mantissa.mul_u32(10);
        mantissa.add_u32(c as u32 - '0' as u32);
        if after_point {
            exp10 -= 1;
        }
    }
    Rational::from_decimal_parts(neg, mantissa, exp10)
        .to_decimal(sig)
        .0
}

#[test]
fn integers_and_signs() {
    assert_eq!(rat(0).to_decimal(20), ("0".into(), true));
    assert_eq!(rat(7).to_decimal(20), ("7".into(), true));
    assert_eq!(rat(-7).to_decimal(20), ("-7".into(), true));
}

#[test]
fn arithmetic_is_exact() {
    assert_eq!(rat(60).add(&rat(2)).to_decimal(20), ("62".into(), true));
    assert_eq!(rat(64).sub(&rat(2)).to_decimal(20), ("62".into(), true));
    assert_eq!(rat(6).mul(&rat(7)).to_decimal(20), ("42".into(), true));
    assert_eq!(rat(1).div(&rat(2)).unwrap().to_decimal(20), ("0.5".into(), true));
    // Opposite signs cancelling exactly.
    assert!(rat(5).sub(&rat(5)).is_zero());
    assert_eq!(rat(2).sub(&rat(5)).to_decimal(20), ("-3".into(), true));
    assert_eq!(rat(-2).add(&rat(5)).to_decimal(20), ("3".into(), true));
    assert_eq!(rat(-2).mul(&rat(-5)).to_decimal(20), ("10".into(), true));
    assert_eq!(rat(-2).mul(&rat(5)).to_decimal(20), ("-10".into(), true));
}

#[test]
fn division_by_zero_is_rejected() {
    assert!(rat(1).div(&rat(0)).is_none());
}

/// 1/3 has no finite expansion, so it must be reported as truncated rather than claimed exact.
#[test]
fn non_terminating_quotients_are_flagged() {
    let third = rat(1).div(&rat(3)).unwrap();
    let (text, exact) = third.to_decimal(20);
    assert!(!exact, "1/3 cannot be exact");
    assert!(text.starts_with("0.33333333333333333333"), "got {text}");
    assert!(!third.is_terminating());

    // A quotient that does terminate must say so.
    let quarter = rat(1).div(&rat(4)).unwrap();
    assert_eq!(quarter.to_decimal(20), ("0.25".into(), true));
    assert!(quarter.is_terminating());
    // 1/5 terminates in decimal even though it is not dyadic.
    assert!(rat(1).div(&rat(5)).unwrap().is_terminating());
}

#[test]
fn decimal_literals_round_trip() {
    assert_eq!(dec("0.1", 20), "0.1");
    assert_eq!(dec("-0.001", 20), "-0.001");
    assert_eq!(dec("123.456", 20), "123.456");
    assert_eq!(dec("1000", 20), "1000");
}

#[test]
fn ordering() {
    assert_eq!(rat(1).cmp(&rat(2)), Ordering::Less);
    assert_eq!(rat(2).cmp(&rat(1)), Ordering::Greater);
    assert_eq!(rat(2).cmp(&rat(2)), Ordering::Equal);
    assert_eq!(rat(-1).cmp(&rat(1)), Ordering::Less);
    assert_eq!(rat(-2).cmp(&rat(-1)), Ordering::Less);
    assert_eq!(rat(0).cmp(&rat(-1)), Ordering::Greater);
    assert_eq!(rat(0).cmp(&rat(1)), Ordering::Less);
    // Fractions with different denominators.
    let a = rat(1).div(&rat(3)).unwrap();
    let b = rat(1).div(&rat(4)).unwrap();
    assert_eq!(a.cmp(&b), Ordering::Greater);
}

/// Very small and very large magnitudes must still produce the requested digits.
#[test]
fn extreme_magnitudes() {
    let mut tiny = Big::one();
    tiny.shl_bits(1);
    let big_den = {
        let mut d = Big::one();
        d.shl_bits(400);
        d
    };
    let r = Rational::new(false, tiny, big_den); // 2^-399
    let (text, exact) = r.to_decimal(10);
    // Rounded to 10 significant digits; the trailing zero of 7.745183830 is not shown.
    assert_eq!(text, "7.74518383e-121", "got {text}");
    // Dyadic, so it terminates, but 2^-399 is 5^399/10^399, whose numerator has 279
    // significant digits, so 10 of them are necessarily a rounding.
    assert!(r.is_terminating());
    assert!(!exact, "10 digits cannot hold a 279-digit expansion");
    assert!(!r.to_decimal(278).1, "nor can 278");
    assert!(r.to_decimal(279).1, "279 digits is exactly enough");

    let mut huge = Big::one();
    huge.shl_bits(400);
    let r = Rational::new(false, huge, Big::one());
    let (text, _) = r.to_decimal(10);
    assert!(text.starts_with("2.582249878e120"), "got {text}");
}

#[test]
fn constructors_and_sign_handling() {
    let r = Rational::from_significand(true, 3 << 59, 0); // -1.5
    assert_eq!(r.to_decimal(20), ("-1.5".into(), true));
    assert_eq!(r.negated().to_decimal(20), ("1.5".into(), true));
    assert_eq!(r.abs().to_decimal(20), ("1.5".into(), true));
    assert_eq!(Rational::zero().negated().to_decimal(20), ("0".into(), true));
    assert_eq!(rat(-3).cmp_abs(&rat(2)), Ordering::Greater);
    let seventh = rat(2).div(&rat(-7)).unwrap();
    assert_eq!(seventh.to_decimal(6), ("-0.285714".into(), false));
    let r = Rational::from_significand(false, 1 << 60, 10); // 2^10
    assert_eq!(r.to_decimal(20), ("1024".into(), true));
    assert!(r.displayable());
    // 6/3 keeps its denominator of three, but its value 2 terminates, and the text is all of it.
    let r = rat(6).div(&rat(3)).unwrap();
    assert!(r.is_terminating());
    assert_eq!(r.to_decimal(20), ("2".into(), true));
    // Common twos are stripped: 6/4 is 3/2.
    assert_eq!(rat(6).div(&rat(4)).unwrap().to_decimal(20), ("1.5".into(), true));
}

/// Termination is a property of the value: 3/3 is 1 and 6/15 is 0.4, whatever the stored
/// denominator.
#[test]
fn termination_reads_the_value_in_lowest_terms() {
    let three_thirds = Rational::new(false, Big::from_u64(3), Big::from_u64(3));
    assert!(three_thirds.is_terminating());
    assert_eq!(three_thirds.to_decimal(20), ("1".to_string(), true));
    let six_fifteenths = Rational::new(true, Big::from_u64(6), Big::from_u64(15));
    assert!(six_fifteenths.is_terminating());
    assert_eq!(six_fifteenths.to_decimal(20), ("-0.4".to_string(), true));
    let two_sixths = Rational::new(false, Big::from_u64(2), Big::from_u64(6));
    assert!(!two_sixths.is_terminating());
    assert!(!two_sixths.to_decimal(5).1);
}
