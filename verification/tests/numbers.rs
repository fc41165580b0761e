use gamma_tables::curve::{parse_u16_curve_vec, sample_number};
use gamma_tables::decimal::Decimal;
use gamma_tables::lattice::hold;
use gamma_tables::number::{parse_number, Number};
use gamma_tables::single::sample_in_window;

fn number(text: &str) -> Option<Number> {
    let chars: Vec<char> = text.chars().collect();
    parse_number(&chars, 40, 50)
}

fn decimal(text: &str) -> Decimal {
    hold(number(text).unwrap())
}

fn sample(text: &str) -> u16 {
    let chars: Vec<char> = text.chars().collect();
    sample_number(&parse_number(&chars, 1, 6).unwrap())
}

#[test]
fn plain_forms_are_numbers() {
    for text in ["0", "7", "0.5", ".5", "5.", "+1", "-1", "1e3", "1E3", "1e+3", "1.e-3", "+.5e1"] {
        assert!(number(text).is_some(), "{}", text);
    }
}

#[test]
fn infinities_and_nan_are_numbers() {
    for text in ["inf", "+inf", "-inf", "INF", "Infinity", "-iNfInItY", "nan", "NaN", "+nan", "-NAN"] {
        assert!(number(text).is_some(), "{}", text);
    }
    assert!(matches!(number("nan"), Some(Number::NotANumber)));
    assert!(matches!(number("-Inf"), Some(Number::Infinite { negative: true })));
    assert!(matches!(number("infinity"), Some(Number::Infinite { negative: false })));
}

#[test]
fn other_words_are_not_numbers() {
    for text in [
        "", ".", "+", "-", "e5", ".e5", "1e", "1e+", "1.2.3", "1 ", " 1", "abc", "1,5", "0x10",
        "in", "infi", "infinit", "infinityy", "na", "nann", "1e5x", "--1", "+-1", "i", "1inf",
    ] {
        assert!(number(text).is_none(), "{}", text);
    }
}

#[test]
fn exponents_of_any_size_are_read() {
    assert_eq!(sample("1e1000"), 65535);
    assert_eq!(sample("1e1001"), 65535);
    assert_eq!(sample("1e-1001"), 0);
    assert_eq!(sample("-1e1001"), 0);
    assert_eq!(sample("1e99999999999999999999999999999999999999999999"), 65535);
    assert_eq!(sample("1e-99999999999999999999999999999999999999999999"), 0);
    assert_eq!(sample("0e99999999999999999999999999999999999999999999"), 0);
    assert_eq!(sample("5e-00000000000000000000000000000000000000000001"), 32768);
    assert_eq!(sample("0.000000000000000000000000000005e29"), 32768);
    assert_eq!(sample("50000000000000000000000000000000e-32"), 32768);
    assert!(matches!(number("1e41"), Some(Number::Huge { negative: false })));
    assert!(matches!(number("-1e40"), Some(Number::Huge { negative: true })));
    assert!(matches!(number("9e39"), Some(Number::Placed(_))));
    assert!(matches!(number("1e-50"), Some(Number::Placed(_))));
    assert!(matches!(number("9e-51"), Some(Number::Tiny)));
    assert!(matches!(number("0.000"), Some(Number::Tiny)));
}

#[test]
fn digits_and_point_are_kept() {
    let d = decimal("-12.345");
    assert!(d.negative);
    assert_eq!(d.digits, vec![1, 2, 3, 4, 5]);
    assert_eq!(d.places, 3);
    let d = decimal("12.345e2");
    assert_eq!(d.digits, vec![1, 2, 3, 4, 5]);
    assert_eq!(d.places, 1);
    let d = decimal("12.345e5");
    assert_eq!(d.digits, vec![1, 2, 3, 4, 5, 0, 0]);
    assert_eq!(d.places, 0);
    let d = decimal("12.345e-1");
    assert_eq!(d.digits, vec![1, 2, 3, 4, 5]);
    assert_eq!(d.places, 4);
    let d = decimal("12.345e-4");
    assert_eq!(d.digits, vec![0, 0, 1, 2, 3, 4, 5]);
    assert_eq!(d.places, 7);
}

#[test]
fn numbers_out_of_reach_are_held_at_the_limit() {
    let d = decimal("1e1001");
    assert!(!d.negative);
    assert_eq!(d.digits.len(), 41);
    assert_eq!(d.digits[0], 1);
    assert!(d.digits[1..].iter().all(|&x| x == 0));
    assert_eq!(d.places, 0);
    assert!(decimal("-inf").negative);
    assert_eq!(decimal("-inf").digits.len(), 41);
    assert_eq!(decimal("1e-1001").quantize(), 0);
    assert_eq!(decimal("nan").quantize(), 0);
    assert_eq!(decimal("inf").quantize(), 65535);
}

#[test]
fn samples_are_made_in_single_precision() {
    let expected = [
        ("0", 0),
        ("1", 65535),
        ("1.0", 65535),
        ("0.5", 32768),
        ("0.25", 16384),
        ("0.003922", 257),
        ("5e-1", 32768),
        ("0.05e1", 32768),
        ("1e-5", 1),
        ("0.1", 6554),
        ("0.2", 13107),
        ("0.333333", 21845),
        ("0.666667", 43690),
        ("0.000023", 2),
        ("0.00001144", 1),
    ];
    for (text, value) in expected {
        assert_eq!(sample(text), value, "{}", text);
    }
}

#[test]
fn single_precision_differs_from_exact_rounding() {
    // 37728.4995 exactly; the nearest single times 65535 is 37728.5
    assert_eq!(sample("0.5757"), 37729);
    assert_eq!(decimal("0.5757").quantize(), 37728);
    // both are the single 0.5
    assert_eq!(sample("0.50000001"), 32768);
    assert_eq!(sample("0.49999999"), 32768);
    assert_eq!(decimal("0.49999999").quantize(), 32767);
    // both are the single nearest to a tenth
    assert_eq!(sample("0.09999999999999999999999999999999999999"), 6554);
    assert_eq!(sample("0.10000000000000000000000000000000000001"), 6554);
    assert_eq!(decimal("0.09999999999999999999999999999999999999").quantize(), 6553);
    assert_eq!(sample("0.00000762951094834821"), 1);
    assert_eq!(decimal("0.00000762951094834821").quantize(), 0);
    assert_eq!(parse_u16_curve_vec("0.5757 0.49999999"), Ok(vec![37729, 32768]));
}

#[test]
fn samples_out_of_range_are_clipped() {
    for text in ["1.5", "2", "9.99", "10", "123456789012345678901234567890", "inf", "+Infinity", "1.00000001", "0.999999"] {
        assert_eq!(sample(text), 65535, "{}", text);
    }
    for text in ["-0.2", "-1", "-inf", "nan", "-nan", "-0.000001", "-0", "1e-6", "9.99e-7", "0.0000038", "0.0000076"] {
        assert_eq!(sample(text), 0, "{}", text);
    }
    assert_eq!(sample("0.99999"), 65534);
}

#[test]
fn window_samples() {
    // a half: 2^41 of 2^42
    assert_eq!(sample_in_window(1 << 41, false), 32768);
    // one: 2^42 of 2^42
    assert_eq!(sample_in_window(1 << 42, false), 65535);
    // 2^-18, the lowest of the window: a quarter of a sample
    assert_eq!(sample_in_window(1 << 24, false), 0);
    // 25 binary digits, the last one set: a tie goes to the even side
    assert_eq!(sample_in_window((1 << 24) + 1, false), 0);
    assert_eq!(sample_in_window((1 << 42) + (1 << 41), true), 65535);
}

#[test]
fn exact_rounding_rounds_a_half_upward() {
    assert_eq!(decimal("0.1").quantize(), 6554);
    assert_eq!(decimal("0.5").quantize(), 32768);
    assert_eq!(decimal("1.5").quantize(), 65535);
    assert_eq!(decimal("-0.2").quantize(), 0);
    assert_eq!(decimal("0.00000762951094834822").quantize(), 1);
}

#[test]
fn blend_rounds_the_exact_sum() {
    let a = decimal("0.25");
    let b = decimal("0.75");
    assert_eq!(Decimal::blend(&a, 100, &b, 200), 175);
    assert_eq!(Decimal::blend(&a, 1, &b, 0), 0);
    assert_eq!(Decimal::blend(&a, 2, &b, 0), 1);
    assert_eq!(Decimal::blend(&a, 0, &b, 2), 2);
    assert_eq!(Decimal::blend(&a, 65535, &b, 65535), 65535);
    let c = decimal("0.1666666666666666666666666");
    let d = decimal("2e-25");
    assert_eq!(Decimal::blend(&c, 3, &d, 0), 0);
    assert_eq!(Decimal::blend(&c, 3, &d, 1), 1);
    assert_eq!(Decimal::blend(&d, 1, &c, 3), 1);
}

#[test]
fn blend_takes_signs_into_account() {
    let minus = decimal("-1");
    let plus = decimal("1");
    assert_eq!(Decimal::blend(&minus, 10, &plus, 20), 10);
    assert_eq!(Decimal::blend(&plus, 10, &minus, 20), 0);
    assert_eq!(Decimal::blend(&plus, 10, &minus, 10), 0);
    let big = decimal("1000000000000000000000000000000");
    let small = decimal("-999999999999999999999999999999.5");
    assert_eq!(Decimal::blend(&big, 1, &small, 1), 1);
    let smaller = decimal("-999999999999999999999999999999.51");
    assert_eq!(Decimal::blend(&big, 1, &smaller, 1), 0);
    let half = decimal("-0.5");
    assert_eq!(Decimal::blend(&half, 1, &plus, 0), 0);
    assert_eq!(Decimal::blend(&half, 1, &plus, 1), 1);
}
