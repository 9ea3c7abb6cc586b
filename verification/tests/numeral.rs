use spikenorm::numeral::{decimal_text, is_numeral_text};

#[test]
fn whole_numbers_in_decimal() {
    assert_eq!(decimal_text(0), "0");
    assert_eq!(decimal_text(2), "2");
    assert_eq!(decimal_text(9), "9");
    assert_eq!(decimal_text(10), "10");
    assert_eq!(decimal_text(16), "16");
    assert_eq!(decimal_text(1234567890), "1234567890");
    assert_eq!(decimal_text(usize::MAX), usize::MAX.to_string());
    for value in 0..2500usize {
        assert_eq!(decimal_text(value), value.to_string());
    }
}

#[test]
fn numerals_are_digits_around_at_most_one_point() {
    for text in ["0", "1", "0.5", "0.25", "10", "3.14159", "0.333333333333333", "007", "12.0"] {
        assert!(is_numeral_text(text), "{}", text);
    }
    for text in [
        "", ".", ".5", "5.", "1..2", "1.2.3", "-1", "+1", "1e5", "1 ", " 1", "0,5", "inf", "NaN",
        "1\n", "0.5\n0.25", "\u{663}",
    ] {
        assert!(!is_numeral_text(text), "{:?}", text);
    }
}

#[test]
fn every_factor_the_machine_prints_is_a_numeral() {
    for value in [0.0, 1.0, 0.5, 0.25, 1.0 / 3.0, 0.1, 5e-324, 1e-7, 2.5e-300, 0.9999999999999999] {
        let text: String = f64::to_string(&value);
        assert!(is_numeral_text(&text), "{}", text);
    }
}
