use big_integer::{BigInt, BigIntError};
use num_bigint::ToBigInt;

fn big(text: &str) -> BigInt {
    BigInt::new(text).unwrap()
}

fn text(value: BigInt) -> String {
    value.to_string()
}

#[test]
fn rejects_malformed_text() {
    for bad in ["", "a", "1234+", "--1234", "++1234", "+12.34", "+", "-", "+-1", "-+1", "12 34", " 1", "1 ", "1e5", "0x10"] {
        assert_eq!(BigInt::new(bad).unwrap_err(), BigIntError::InvalidFormat, "{:?}", bad);
    }
}

#[test]
fn rejects_text_outside_ascii() {
    for bad in ["１２３", "é", "12３", "-٣"] {
        assert_eq!(BigInt::new(bad).unwrap_err(), BigIntError::InvalidFormat, "{:?}", bad);
    }
}

#[test]
fn renders_the_canonical_form() {
    assert_eq!(text(big("-001234")), "-1234");
    assert_eq!(text(big("0000")), "0");
    assert_eq!(text(big("0")), "0");
    assert_eq!(text(big("+0")), "0");
    assert_eq!(text(big("-0")), "0");
    assert_eq!(text(big("-000")), "0");
    assert_eq!(text(big("+000123")), "123");
    assert_eq!(text(big("1000")), "1000");
    assert_eq!(text(big("-10")), "-10");
    assert_eq!(text(big("0123456789")), "123456789");
}

#[test]
fn canonical_text_parses_to_itself() {
    for canonical in ["0", "7", "-7", "10", "-10", "123456789123456789123456789", "-900000000000000000000"] {
        assert_eq!(text(big(canonical)), canonical);
    }
}

#[test]
fn zero_has_no_sign() {
    assert!(big("-0") == big("0"));
    assert!(big("+0") == big("0"));
    assert!(-big("0") == big("0"));
    assert_eq!(text(-big("0")), "0");
    assert_eq!(text(big("5") - big("5")), "0");
    assert_eq!(text(big("-5") + big("5")), "0");
    assert_eq!(text(big("0") + big("0")), "0");
    assert_eq!(text(big("0") * big("-5")), "0");
    assert_eq!(text((big("0") / big("-5")).unwrap()), "0");
    assert_eq!(text((big("0") / big("-1")).unwrap()), "0");
    assert_eq!(text((big("3") / big("-5")).unwrap()), "0");
}

#[test]
fn equality_is_by_sign_and_digits() {
    assert!(big("12") == big("0012"));
    assert!(big("12") == big("+12"));
    assert!(big("12") != big("-12"));
    assert!(big("12") != big("21"));
    assert!(big("12") != big("120"));
}

#[test]
fn compares_non_negative_numbers_by_value() {
    assert!(big("0") < big("1"));
    assert!(big("9") < big("10"));
    assert!(big("99") < big("100"));
    assert!(big("123") < big("124"));
    assert!(big("199") < big("200"));
    assert!(big("200") > big("199"));
    assert!(big("1000000000000000000000") > big("999999999999999999999"));
    assert!(big("7") <= big("7"));
    assert!(big("7") >= big("7"));
    assert_eq!(big("7").partial_cmp(&big("7")), Some(std::cmp::Ordering::Equal));
    assert_eq!(big("7").partial_cmp(&big("8")), Some(std::cmp::Ordering::Less));
    assert_eq!(big("8").partial_cmp(&big("7")), Some(std::cmp::Ordering::Greater));
}

#[test]
fn negative_comes_before_non_negative() {
    assert!(big("-1") < big("0"));
    assert!(big("-1") < big("1"));
    assert!(big("-1000") < big("1"));
    assert!(big("0") > big("-1000"));
    assert!(big("5") > big("-5"));
}

#[test]
fn two_negatives_compare_by_value() {
    assert_eq!(big("-1").partial_cmp(&big("-2")), Some(std::cmp::Ordering::Greater));
    assert_eq!(big("-10").partial_cmp(&big("-9")), Some(std::cmp::Ordering::Less));
    assert_eq!(big("-3").partial_cmp(&big("-3")), Some(std::cmp::Ordering::Equal));
    assert!(big("-10") < big("-9"));
    assert!(big("-2") < big("-1"));
    assert!(big("-123") > big("-124"));
    assert!(big("-1000000000000000000000") < big("-999999999999999999999"));
    assert!(big("-7") <= big("-7"));
    assert!(big("-7") >= big("-7"));
}

#[test]
fn compare_matches_the_reference() {
    for x in -25..=25 {
        for y in -25..=25 {
            let (a, b) = (big(&format!("{}", x)), big(&format!("{}", y)));
            assert_eq!(a.partial_cmp(&b), Some(x.cmp(&y)), "{} against {}", x, y);
            assert_eq!(a < b, x < y);
            assert_eq!(a == b, x == y);
        }
    }
}

#[test]
fn compare_is_reflexive_and_antisymmetric() {
    let samples = ["-100", "-7", "-1", "0", "1", "7", "100", "123456789012345678901234567890"];
    for a in samples {
        assert_eq!(big(a).partial_cmp(&big(a)), Some(std::cmp::Ordering::Equal));
        for b in samples {
            let forward = big(a).partial_cmp(&big(b)).unwrap();
            let backward = big(b).partial_cmp(&big(a)).unwrap();
            assert_eq!(forward, backward.reverse());
            assert_eq!(forward == std::cmp::Ordering::Equal, big(a) == big(b));
        }
    }
}

#[test]
fn negation_is_an_involution() {
    for a in ["0", "1", "-1", "100", "-123456789123456789"] {
        assert!(-(-big(a)) == big(a));
    }
    assert_eq!(text(-big("100")), "-100");
    assert_eq!(text(-big("-100")), "100");
}

#[test]
fn absolute_value() {
    assert_eq!(text(big("-42").abs()), "42");
    assert_eq!(text(big("42").abs()), "42");
    assert_eq!(text(big("0").abs()), "0");
}

#[test]
fn clone_is_equal() {
    let a = big("-987654321987654321");
    assert!(a.clone() == a);
    assert_eq!(text(a.clone()), "-987654321987654321");
}

#[test]
fn addition_laws() {
    let samples = ["-999", "-1", "0", "1", "5", "999", "123456789123456789123456789"];
    for a in samples {
        assert!(big(a) + big("0") == big(a));
        assert!(big("0") + big(a) == big(a));
        assert!(big(a) + (-big(a)) == big("0"));
        for b in samples {
            assert!(big(a) + big(b) == big(b) + big(a));
            assert!(big(a) - big(b) == big(a) + (-big(b)));
            for c in samples {
                assert!((big(a) + big(b)) + big(c) == big(a) + (big(b) + big(c)));
            }
        }
    }
}

#[test]
fn addition_carries() {
    assert_eq!(text(big("1") + big("9")), "10");
    assert_eq!(text(big("999999999999999999999") + big("1")), "1000000000000000000000");
    assert_eq!(text(big("1") + big("999999999999999999999")), "1000000000000000000000");
    assert_eq!(text(big("-999") + big("-1")), "-1000");
    assert_eq!(text(big("95") + big("7")), "102");
    assert_eq!(text(big("5") + big("5")), "10");
}

#[test]
fn addition_of_opposite_signs() {
    assert_eq!(text(big("5") + big("-7")), "-2");
    assert_eq!(text(big("-5") + big("7")), "2");
    assert_eq!(text(big("7") + big("-5")), "2");
    assert_eq!(text(big("-7") + big("5")), "-2");
    assert_eq!(text(big("1000") + big("-1")), "999");
}

#[test]
fn subtraction_borrows() {
    assert_eq!(text(big("1000000000000000000000") - big("1")), "999999999999999999999");
    assert_eq!(text(big("10") - big("9")), "1");
    assert_eq!(text(big("9") - big("3")), "6");
    assert_eq!(text(big("100") - big("99")), "1");
    assert_eq!(text(big("1234") - big("1234")), "0");
    assert_eq!(text(big("3") - big("9")), "-6");
    assert_eq!(text(big("-3") - big("-9")), "6");
    assert_eq!(text(big("-9") - big("-3")), "-6");
    assert_eq!(text(big("-3") - big("9")), "-12");
    assert_eq!(text(big("3") - big("-9")), "12");
    assert_eq!(text(big("1") - big("1000")), "-999");
}

#[test]
fn subtraction_of_itself_is_zero() {
    for a in ["0", "1", "-1", "123456789123456789123456789"] {
        assert!(big(a) - big(a) == big("0"));
    }
}

#[test]
fn multiplication_laws() {
    let samples = ["-999", "-1", "0", "1", "5", "999", "123456789123456789123456789"];
    for a in samples {
        assert!(big(a) * big("1") == big(a));
        assert!(big("1") * big(a) == big(a));
        assert!(big(a) * big("0") == big("0"));
        assert!(big("0") * big(a) == big("0"));
        assert!(big(a) * big("-1") == -big(a));
        for b in samples {
            assert!(big(a) * big(b) == big(b) * big(a));
        }
    }
}

#[test]
fn multiplication_values() {
    assert_eq!(text(big("9") * big("9")), "81");
    assert_eq!(text(big("99") * big("99")), "9801");
    assert_eq!(text(big("12") * big("-12")), "-144");
    assert_eq!(text(big("-12") * big("-12")), "144");
    assert_eq!(text(big("1000000007") * big("998244353")), "998244359987710471");
    assert_eq!(
        text(big("99999999999999999999") * big("99999999999999999999")),
        "9999999999999999999800000000000000000001"
    );
}

#[test]
fn division_by_zero_is_refused() {
    for a in ["0", "1", "-1", "100", "123456789123456789123456789"] {
        assert_eq!((big(a) / big("0")).unwrap_err(), BigIntError::DivisionByZero);
        assert_eq!((big(a) / big("-0")).unwrap_err(), BigIntError::DivisionByZero);
    }
}

#[test]
fn division_laws() {
    for a in ["-999", "-1", "1", "5", "999", "123456789123456789123456789"] {
        assert!((big(a) / big("1")).unwrap() == big(a));
        assert!((big(a) / big("-1")).unwrap() == -big(a));
        assert!((big(a) / big(a)).unwrap() == big("1"));
        assert!((big(a) / -big(a)).unwrap() == big("-1"));
    }
    assert!((big("0") / big("1")).unwrap() == big("0"));
    assert!((big("5") / big("7")).unwrap() == big("0"));
    assert!((big("-5") / big("7")).unwrap() == big("0"));
    assert!((big("99") / big("-100")).unwrap() == big("0"));
}

#[test]
fn division_rounds_toward_zero() {
    assert_eq!(text((big("100") / big("3")).unwrap()), "33");
    assert_eq!(text((big("7") / big("2")).unwrap()), "3");
    assert_eq!(text((big("-7") / big("2")).unwrap()), "-3");
    assert_eq!(text((big("7") / big("-2")).unwrap()), "-3");
    assert_eq!(text((big("-7") / big("-2")).unwrap()), "3");
    assert_eq!(text((big("-1") / big("2")).unwrap()), "0");
}

#[test]
fn division_through_runs_of_zeros() {
    assert_eq!(text((big("1000000") / big("10")).unwrap()), "100000");
    assert_eq!(text((big("100100") / big("100")).unwrap()), "1001");
    assert_eq!(text((big("1200034") / big("12")).unwrap()), "100002");
    assert_eq!(text((big("120000") / big("12")).unwrap()), "10000");
    assert_eq!(text((big("1000000000000000000000000000000") / big("7")).unwrap()), "142857142857142857142857142857");
    assert_eq!(text((big("999") / big("1000")).unwrap()), "0");
    assert_eq!(text((big("1000") / big("999")).unwrap()), "1");
    assert_eq!(text((big("81") / big("9")).unwrap()), "9");
    assert_eq!(
        text((big("123456789012345678901234567890") / big("987654321")).unwrap()),
        "124999998873437499901"
    );
}

#[test]
fn large_operand_scenario() {
    let a = "123456789123456789123456789";
    let b = "-987654321";
    assert_eq!(text(big(a) + big(b)), "123456789123456788135802468");
    assert_eq!(text(big(a) - big(b)), "123456789123456790111111110");
    assert_eq!(text(big(a) * big(b)), "-121932631234567900234567900112635269");
    assert_eq!(text((big(a) / big(b)).unwrap()), "-124999998985937499");
}

#[test]
fn large_operand_scenario_against_reference() {
    let a = "123456789123456789123456789";
    let b = "-987654321";
    let ra = a.parse::<num_bigint::BigInt>().unwrap();
    let rb = b.parse::<num_bigint::BigInt>().unwrap();
    assert_eq!(text(big(a) + big(b)), format!("{}", &ra + &rb));
    assert_eq!(text(big(a) - big(b)), format!("{}", &ra - &rb));
    assert_eq!(text(big(a) * big(b)), format!("{}", &ra * &rb));
    assert_eq!(text((big(a) / big(b)).unwrap()), format!("{}", &ra / &rb));
}

#[test]
fn small_numbers_against_reference() {
    for x in -30..=30 {
        for y in -30..=30 {
            let (a, b) = (big(&format!("{}", x)), big(&format!("{}", y)));
            let (ra, rb) = (x.to_bigint().unwrap(), y.to_bigint().unwrap());
            assert_eq!(text(a.clone() + b.clone()), format!("{}", &ra + &rb));
            assert_eq!(text(a.clone() - b.clone()), format!("{}", &ra - &rb));
            assert_eq!(text(a.clone() * b.clone()), format!("{}", &ra * &rb));
            if y == 0 {
                assert_eq!((a / b).unwrap_err(), BigIntError::DivisionByZero);
            } else {
                assert_eq!(text((a / b).unwrap()), format!("{}", &ra / &rb));
            }
        }
    }
}
