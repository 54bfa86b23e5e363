use ad::numbers::big_integer::BigInteger;

#[test]
pub fn add_test() {
    let a = BigInteger::from_str("42").unwrap();
    let b = BigInteger::from_str("112").unwrap();
    let c = BigInteger::from_str("154").unwrap();
    assert!(a.add(&b).equals(&c));

    let a = BigInteger::from_str("13").unwrap();
    let b = BigInteger::from_str("-6").unwrap();
    let c = BigInteger::from_str("7").unwrap();
    assert!(a.add(&b).equals(&c));

    let a = BigInteger::from_str("-6").unwrap();
    let b = BigInteger::from_str("13").unwrap();
    let c = BigInteger::from_str("7").unwrap();
    assert!(a.add(&b).equals(&c));

    let a = BigInteger::from_str("-326").unwrap();
    let b = BigInteger::from_str("-4830").unwrap();
    let c = BigInteger::from_str("-5156").unwrap();
    assert!(a.add(&b).equals(&c))
}

#[test]
pub fn sub_test() {
    let a = BigInteger::from_str("612").unwrap();
    let b = BigInteger::from_str("83").unwrap();
    let c = BigInteger::from_str("529").unwrap();
    assert!(a.sub(&b).equals(&c));

    let a = BigInteger::from_str("83").unwrap();
    let b = BigInteger::from_str("612").unwrap();
    let c = BigInteger::from_str("-529").unwrap();
    assert!(a.sub(&b).equals(&c));

    let a = BigInteger::from_str("612").unwrap();
    let b = BigInteger::from_str("-83").unwrap();
    let c = BigInteger::from_str("695").unwrap();
    assert!(a.sub(&b).equals(&c));

    let a = BigInteger::from_str("-612").unwrap();
    let b = BigInteger::from_str("83").unwrap();
    let c = BigInteger::from_str("-695").unwrap();
    assert!(a.sub(&b).equals(&c));

    let a = BigInteger::from_str("-612").unwrap();
    let b = BigInteger::from_str("-83").unwrap();
    let c = BigInteger::from_str("-529").unwrap();
    assert!(a.sub(&b).equals(&c));

    let a = BigInteger::from_str("-83").unwrap();
    let b = BigInteger::from_str("-612").unwrap();
    let c = BigInteger::from_str("529").unwrap();
    assert!(a.sub(&b).equals(&c));
}

#[test]
pub fn mul_test() {
    let a = BigInteger::from_str("4725").unwrap();
    let b = BigInteger::from_str("9393").unwrap();
    let c = BigInteger::from_i32(4725 * 9393);
    assert!(a.mul(&b).equals(&c));

    let a = BigInteger::from_str("4725").unwrap();
    let b = BigInteger::from_str("939").unwrap();
    let c = BigInteger::from_i32(4725 * 939);
    assert!(a.mul(&b).equals(&c));

    let a = BigInteger::from_str("472").unwrap();
    let b = BigInteger::from_str("9").unwrap();
    let c = BigInteger::from_i32(472 * 9);
    assert!(a.mul(&b).equals(&c));

    let a = BigInteger::from_str("472").unwrap();
    let b = BigInteger::from_str("-9").unwrap();
    let c = BigInteger::from_i32(472 * -9);
    assert!(a.mul(&b).equals(&c));

    let a = BigInteger::from_str("472").unwrap();
    let b = BigInteger::from_str("-9").unwrap();
    let c = BigInteger::from_i32(472 * -9);
    assert!(a.mul(&b).equals(&c));

    let a = BigInteger::from_str("-472").unwrap();
    let b = BigInteger::from_str("9").unwrap();
    let c = BigInteger::from_i32(-472 * 9);
    assert!(a.mul(&b).equals(&c));

    let a = BigInteger::from_str("-472").unwrap();
    let b = BigInteger::from_str("-9").unwrap();
    let c = BigInteger::from_i32(-472 * -9);
    assert!(a.mul(&b).equals(&c));
}

#[test]
pub fn parse_rejection_test() {
    assert!(BigInteger::from_str("12a3").is_err());
    assert!(BigInteger::from_str("-").is_err());
    assert!(BigInteger::from_str("--5").is_err());
    assert!(BigInteger::from_str("").is_ok());
    assert!(BigInteger::from_str("").unwrap().equals(&BigInteger::zero()));
    assert!(BigInteger::from_str("").unwrap().is_zero());
}

#[test]
pub fn round_trip_test() {
    for s in ["0", "7", "42", "154", "1000", "-1", "-5156", "987654321"] {
        let parsed = BigInteger::from_str(s).unwrap();
        assert_eq!(parsed.to_display_string(), s);
    }
}

#[test]
pub fn render_zero_test() {
    assert_eq!(BigInteger::zero().to_display_string(), "0");
    assert_eq!(BigInteger::zero().as_negative().to_display_string(), "0");
    assert_eq!(BigInteger::from_str("").unwrap().to_display_string(), "0");
}

#[test]
pub fn add_commutative_test() {
    let a = BigInteger::from_str("987654321").unwrap();
    let b = BigInteger::from_str("-12345").unwrap();
    assert!(a.add(&b).equals(&b.add(&a)));
    assert!(a.mul(&b).equals(&b.mul(&a)));
}

#[test]
pub fn additive_inverse_test() {
    for s in ["0", "5", "-5", "123456789123456789"] {
        let a = BigInteger::from_str(s).unwrap();
        assert!(a.add(&a.negate()).equals(&BigInteger::zero()));
    }
}

#[test]
pub fn sub_consistency_test() {
    let a = BigInteger::from_str("31415926").unwrap();
    let b = BigInteger::from_str("-2718281828").unwrap();
    assert!(a.sub(&b).equals(&a.add(&b.negate())));
    assert!(b.sub(&a).equals(&b.add(&a.negate())));
}

#[test]
pub fn mul_oracle_test() {
    let pairs: [(i32, i32); 8] = [
        (3, 4),
        (9, 9),
        (-7, 8),
        (12, -12),
        (-31, -27),
        (4725, 9393),
        (0, 55),
        (10000, 3000),
    ];
    for (x, y) in pairs {
        let a = BigInteger::from_i32(x);
        let b = BigInteger::from_i32(y);
        let c = BigInteger::from_i32(x * y);
        assert!(a.mul(&b).equals(&c));
    }
}

#[test]
pub fn zero_absorption_test() {
    for s in ["0", "9", "-9", "123456789"] {
        let a = BigInteger::from_str(s).unwrap();
        assert!(a.mul(&BigInteger::zero()).equals(&BigInteger::zero()));
    }
}

#[test]
pub fn sign_and_compare_test() {
    let a = BigInteger::from_str("15").unwrap();
    assert!(!a.is_negative());
    assert!(a.as_negative().is_negative());
    assert!(!a.as_negative().as_positive().is_negative());
    assert!(a.with_sign(true).is_negative());
    assert!(a.greater_than(&BigInteger::from_str("14").unwrap()));
    assert!(!a.greater_than(&BigInteger::from_str("15").unwrap()));
    assert!(BigInteger::from_str("-3").unwrap().greater_than(&BigInteger::from_str("-4").unwrap()));
    assert!(BigInteger::zero().greater_than(&BigInteger::from_str("-4").unwrap()));
    assert!(BigInteger::from_str("100").unwrap().greater_than(&BigInteger::from_str("99").unwrap()));
    assert!(BigInteger::zero().equals(&BigInteger::zero().as_negative()));
}

#[test]
pub fn shift_left_test() {
    let a = BigInteger::from_str("12").unwrap();
    assert_eq!(a.shift_left(3).to_display_string(), "12000");
    assert_eq!(BigInteger::zero().shift_left(5).to_display_string(), "0");
    assert_eq!(
        BigInteger::from_str("-4").unwrap().shift_left(1).to_display_string(),
        "-40"
    );
}

#[test]
pub fn from_machine_integer_test() {
    assert_eq!(BigInteger::from_i32(i32::MIN).to_display_string(), "-2147483648");
    assert_eq!(BigInteger::from_i32(i32::MAX).to_display_string(), "2147483647");
    assert_eq!(BigInteger::from_i32(0).to_display_string(), "0");
    assert_eq!(
        BigInteger::from_u64(18446744073709551615).to_display_string(),
        "18446744073709551615"
    );
    assert_eq!(BigInteger::from_u64(0).to_display_string(), "0");
}
