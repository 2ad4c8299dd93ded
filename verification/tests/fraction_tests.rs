use curtain_motor::Fraction;

fn times(text: &str, factor: i16) -> Option<i32> {
    Fraction::parse(text.as_bytes()).map(|f| f.scaled(factor))
}

#[test]
fn a_half_of_the_travel() {
    assert_eq!(times("0.5", 4600), Some(2300));
}

#[test]
fn ends_of_the_travel() {
    assert_eq!(times("0", 4600), Some(0));
    assert_eq!(times("0.0", 4600), Some(0));
    assert_eq!(times("1", 4600), Some(4600));
    assert_eq!(times("1.0", 4600), Some(4600));
    assert_eq!(times("1.000", 4600), Some(4600));
}

#[test]
fn forms_of_decimal_text() {
    assert_eq!(times(".5", 10), Some(5));
    assert_eq!(times("5.", 10), Some(50));
    assert_eq!(times("+0.25", 100), Some(25));
    assert_eq!(times("-0.25", 100), Some(-25));
    assert_eq!(times("-.5", 10), Some(-5));
    assert_eq!(times("007.50", 2), Some(15));
}

#[test]
fn text_that_is_no_decimal_number() {
    for text in [
        "", ".", "-", "+", "-.", "+.", "abc", "0.5.1", "1..2", "1,5", " 0.5", "0.5 ", "0.5\n", "--1",
        "+-1", "1-", "0.-5", "inf", "-inf", "+inf", "infinity", "nan", "NaN", "-nan", "0x1p3",
        "0.5f", "1_000", "0.5%",
    ] {
        assert!(Fraction::parse(text.as_bytes()).is_none(), "{:?}", text);
    }
}

#[test]
fn an_exponent_moves_the_point() {
    assert_eq!(times("5e-1", 4600), Some(2300));
    assert_eq!(times("5E-1", 4600), Some(2300));
    assert_eq!(times("0.05e1", 4600), Some(2300));
    assert_eq!(times("0.05e+1", 4600), Some(2300));
    assert_eq!(times("50e-2", 4600), Some(2300));
    assert_eq!(times("-5e-1", 4600), Some(-2300));
    assert_eq!(times("1e0", 4600), Some(4600));
    assert_eq!(times("1e5", 1), Some(100_000));
    assert_eq!(times("1.5e1", 2), Some(30));
    assert_eq!(times("1E-2", 100), Some(1));
    assert_eq!(times(".5e0", 10), Some(5));
    assert_eq!(times("5.e-1", 10), Some(5));
    assert_eq!(times("1e+2", 3), Some(300));
    assert_eq!(times("1e0000000000000000000000000000000000002", 1), Some(100));
    assert_eq!(times("1e-0000000000000000000000000000000000002", 100), Some(1));
}

#[test]
fn an_exponent_needs_a_mantissa_and_a_whole_number() {
    for text in [
        "e5", "E5", "-e5", ".e5", "1e", "1E", "1e+", "1e-", "1e5.0", "1e.5", "1e 5", "1ee5", "1e5e5",
        "1e5 ", "1e--5", "1e+-5", "1.2.3e4", "e", "1e0x1",
    ] {
        assert!(Fraction::parse(text.as_bytes()).is_none(), "{:?}", text);
    }
}

#[test]
fn rounding_with_an_exponent() {
    assert_eq!(times("15e-1", 1), Some(2));
    assert_eq!(times("25e-1", 1), Some(3));
    assert_eq!(times("-25e-1", 1), Some(-3));
    assert_eq!(times("14e-1", 1), Some(1));
    assert_eq!(times("1e-5", 32767), Some(0));
    assert_eq!(times("2e-5", 32767), Some(1));
    assert_eq!(times("0.0000000001e10", 1), Some(1));
    assert_eq!(times("0.00000000015e10", 1), Some(2));
    assert_eq!(times("0.00000000014e10", 1), Some(1));
    assert_eq!(times("12345678901234567890e-19", 1), Some(1));
    assert_eq!(times("12345678901234567890e-19", 4600), Some(5679));
    assert_eq!(times("499999e-6", 1), Some(0));
    assert_eq!(times("500000e-6", 1), Some(1));
    assert_eq!(times("1e-1", 5), Some(1));
    assert_eq!(times("1e-1", 4), Some(0));
    assert_eq!(times("1e-3", 499), Some(0));
    assert_eq!(times("1e-3", 500), Some(1));
    assert_eq!(times("1e-4", 5000), Some(1));
    assert_eq!(times("1e-5", 32767), Some(0));
    assert_eq!(times("3e-5", 16667), Some(1));
    assert_eq!(times("3e-5", 16666), Some(0));
}

#[test]
fn exponents_of_any_size_are_read() {
    assert_eq!(times("1e99999999999999999999999999999999999999999", 1), Some(i32::MAX));
    assert_eq!(times("-1e99999999999999999999999999999999999999999", 1), Some(i32::MIN));
    assert_eq!(times("1e99999999999999999999999999999999999999999", -1), Some(i32::MIN));
    assert_eq!(times("1e-99999999999999999999999999999999999999999", 32767), Some(0));
    assert_eq!(times("-1e-99999999999999999999999999999999999999999", 32767), Some(0));
    assert_eq!(times("0e99999999999999999999999999999999999999999", 4600), Some(0));
    assert_eq!(times("0.000e99999999999999999999999999999999999999999", 4600), Some(0));
    assert_eq!(times("1e1267650600228229401496703205376", 1), Some(i32::MAX));
    assert_eq!(times("1e1267650600228229401496703205377", 1), Some(i32::MAX));
    assert_eq!(times("1e-1267650600228229401496703205376", 1), Some(0));
    assert_eq!(times("1e-1267650600228229401496703205377", 1), Some(0));
    assert_eq!(times("1e40", 1), Some(i32::MAX));
    assert_eq!(times("-1e40", 1), Some(i32::MIN));
    assert_eq!(times("1e9", 1), Some(1_000_000_000));
    assert_eq!(times("1e9", 2), Some(2_000_000_000));
    assert_eq!(times("1e9", 3), Some(i32::MAX));
    assert_eq!(times("1e10", 1), Some(i32::MAX));
    assert_eq!(times("1e11", 1), Some(i32::MAX));
    assert_eq!(times("1e12", 1), Some(i32::MAX));
    assert_eq!(times("0.001e12", 1), Some(1_000_000_000));
    assert_eq!(times("0.0000000000000000000000001e34", 1), Some(1_000_000_000));
    assert_eq!(times("0.0000000000000000000000001e35", 1), Some(i32::MAX));
    assert_eq!(times("2147483647e0", 1), Some(i32::MAX));
    assert_eq!(times("21474836470e-1", 1), Some(2_147_483_647));
    assert_eq!(times("21474836474e-1", 1), Some(2_147_483_647));
    assert_eq!(times("-21474836484e-1", 1), Some(i32::MIN));
    assert_eq!(times("-21474836474e-1", 1), Some(-2_147_483_647));
    assert_eq!(times("1e-6", 32767), Some(0));
    assert_eq!(times("1e-7", 32767), Some(0));
    assert_eq!(times("10000000000e-15", 32767), Some(0));
    assert_eq!(times("10000000000e-14", 32767), Some(3));
    assert_eq!(times("99999e-10", 32767), Some(0));
    assert_eq!(times("99999e-9", 32767), Some(3));
    assert_eq!(times("00000000000000000000000000000000000000000001e-1", 10), Some(1));
}

#[test]
fn scaled_agrees_with_floating_point_on_plain_values() {
    for text in [
        "0.5", "5e-1", "0.25", "2.5e-1", "1e-3", "9.99e-1", "1.25e2", "7e0", "0.007e3", "123.456e-2",
        "-4.2e1", "-0.125", "6.02e3", "1e-2", "33e-2",
    ] {
        for factor in [1i16, 10, 100, 4600, -4600, 12345] {
            let float = (text.parse::<f64>().unwrap() * factor as f64).round() as i32;
            assert_eq!(times(text, factor), Some(float), "{} * {}", text, factor);
        }
    }
}

#[test]
fn bytes_that_are_no_text_give_no_number() {
    assert!(Fraction::parse(&[0xff]).is_none());
    assert!(Fraction::parse(&[0x30, 0x2e, 0xc3]).is_none());
    assert!(Fraction::parse(&[0xe2, 0x82]).is_none());
}

#[test]
fn a_half_rounds_away_from_zero() {
    assert_eq!(times("0.5", 1), Some(1));
    assert_eq!(times("-0.5", 1), Some(-1));
    assert_eq!(times("1.5", 1), Some(2));
    assert_eq!(times("2.5", 1), Some(3));
    assert_eq!(times("-2.5", 1), Some(-3));
    assert_eq!(times("0.25", 2), Some(1));
    assert_eq!(times("0.49999", 1), Some(0));
    assert_eq!(times("0.50001", 1), Some(1));
    assert_eq!(times("-0.49999", 1), Some(0));
}

#[test]
fn rounding_goes_to_the_nearest_step() {
    // 0.47826 * 4600 = 2199.996
    assert_eq!(times("0.47826", 4600), Some(2200));
    // 0.4781 * 4600 = 2199.26
    assert_eq!(times("0.4781", 4600), Some(2199));
    // 0.0001 * 4600 = 0.46
    assert_eq!(times("0.0001", 4600), Some(0));
    // 0.00011 * 4600 = 0.506
    assert_eq!(times("0.00011", 4600), Some(1));
    // 0.3333 * 3 = 0.9999
    assert_eq!(times("0.3333", 3), Some(1));
}

#[test]
fn digits_far_behind_the_point_still_count() {
    assert_eq!(times("0.49999999999999999999999999999999999999", 1), Some(0));
    assert_eq!(times("0.50000000000000000000000000000000000000", 1), Some(1));
    assert_eq!(times("0.50000000000000000000000000000000000001", 1), Some(1));
    // 2299.5 / 4600 = 0.499891304347826086956521739130434782608...
    assert_eq!(
        times("0.4998913043478260869565217391304347826", 4600),
        Some(2299)
    );
    assert_eq!(
        times("0.4998913043478260869565217391304347827", 4600),
        Some(2300)
    );
}

#[test]
fn values_outside_the_travel_are_read_too() {
    assert_eq!(times("2", 4600), Some(9200));
    assert_eq!(times("-1", 4600), Some(-4600));
    assert_eq!(times("10.5", 4600), Some(48300));
    assert_eq!(times("1000", 4600), Some(4_600_000));
}

#[test]
fn products_beyond_the_range_saturate() {
    assert_eq!(times("466033.7", 4608), Some(2_147_483_290));
    assert_eq!(times("2147483647", 1), Some(i32::MAX));
    assert_eq!(times("2147483647.4", 1), Some(i32::MAX));
    assert_eq!(times("2147483647.5", 1), Some(i32::MAX));
    assert_eq!(times("2147483648", 1), Some(i32::MAX));
    assert_eq!(times("-2147483647", 1), Some(-2_147_483_647));
    assert_eq!(times("-2147483648", 1), Some(i32::MIN));
    assert_eq!(times("-2147483649", 1), Some(i32::MIN));
    assert_eq!(times("999999999999999999999999999999", 4600), Some(i32::MAX));
    assert_eq!(times("-999999999999999999999999999999", 4600), Some(i32::MIN));
    assert_eq!(times("999999999999999999999999999999", -4600), Some(i32::MIN));
    assert_eq!(times("70000", 32767), Some(i32::MAX));
}

#[test]
fn factor_zero_gives_zero() {
    assert_eq!(times("0.5", 0), Some(0));
    assert_eq!(times("999999999999999999999999999999", 0), Some(0));
    assert_eq!(times("-3", 0), Some(0));
}

#[test]
fn a_negative_factor_turns_the_sign() {
    assert_eq!(times("0.5", -4600), Some(-2300));
    assert_eq!(times("-0.5", -4600), Some(2300));
    assert_eq!(times("0.5", -1), Some(-1));
    assert_eq!(times("1", i16::MIN), Some(-32768));
    assert_eq!(times("-1.5", i16::MIN), Some(49152));
}

#[test]
fn minus_zero_is_zero() {
    assert_eq!(times("-0", 4600), Some(0));
    assert_eq!(times("-0.000", 4600), Some(0));
    assert_eq!(times("-0.00001", 4600), Some(0));
}

#[test]
fn scaled_agrees_with_exact_arithmetic() {
    for numerator in 0..=2000i64 {
        let text = format!("{}.{:03}", numerator / 1000, numerator % 1000);
        for factor in [1i64, 3, 7, 460, 4600, 32767] {
            let exact = (2 * numerator * factor + 1000) / 2000;
            assert_eq!(times(&text, factor as i16), Some(exact as i32), "{} * {}", text, factor);
        }
    }
}

#[test]
fn zero_is_told_apart() {
    for text in ["0", "0.0", "-0", "000.000", ".0", "0.", "0e5", "0.00e-3", "-0e99999999999999999999"] {
        assert!(Fraction::parse(text.as_bytes()).unwrap().is_zero(), "{}", text);
    }
    for text in ["1", "0.001", "-0.1", "000.0001", "1e-99999999999999999999", "10", "0.10"] {
        assert!(!Fraction::parse(text.as_bytes()).unwrap().is_zero(), "{}", text);
    }
}
