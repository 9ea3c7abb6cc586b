use spikenorm::scale::{is_denoted_by, join_scales, Scale, ScaleError};

fn denoted(value: f64, text: &str) -> bool {
    is_denoted_by(value.to_bits(), text)
}

#[test]
fn a_numeral_denotes_the_number_it_is_read_as() {
    assert!(denoted(0.5, "0.5"));
    assert!(denoted(0.25, "0.25"));
    assert!(denoted(1.0, "1"));
    assert!(denoted(1.0, "1.0"));
    assert!(denoted(1.0, "1.000"));
    assert!(denoted(0.0, "0"));
    assert!(denoted(0.1, "0.1"));
    assert!(denoted(1.0 / 3.0, "0.3333333333333333"));
    assert!(denoted(0.1, "0.1000000000000000055511151231257827"));
    assert!(denoted(12.0, "12"));
    assert!(denoted(1e22, "10000000000000000000000"));
}

#[test]
fn a_numeral_does_not_denote_another_number() {
    assert!(!denoted(0.5, "0.25"));
    assert!(!denoted(0.25, "0.5"));
    assert!(!denoted(1.0, "0.9999999"));
    assert!(!is_denoted_by(0.1f64.to_bits() + 1, "0.1"));
    assert!(!is_denoted_by(0.1f64.to_bits() - 1, "0.1"));
    assert!(!denoted(1.0 / 3.0, "0.333333333333333"));
    assert!(!denoted(0.0, "1"));
    assert!(!denoted(5e-324, "0"));
    assert!(!denoted(0.0, "0.5"));
}

#[test]
fn only_numerals_and_finite_numbers_are_joined() {
    assert!(!denoted(0.5, ".5"));
    assert!(!denoted(0.5, "5e-1"));
    assert!(!denoted(0.5, "0.5\n"));
    assert!(!denoted(0.5, ""));
    assert!(!denoted(f64::INFINITY, "1"));
    assert!(!denoted(f64::NAN, "1"));
    assert!(!denoted(-0.5, "0.5"));
    assert!(!denoted(-0.0, "0"));
}

#[test]
fn ties_go_to_the_even_number() {
    // 2^53 + 1 lies midway between two numbers; the even one is 2^53.
    assert!(denoted(9007199254740992.0, "9007199254740993"));
    assert!(!denoted(9007199254740994.0, "9007199254740993"));
    // 2^53 + 3 lies midway as well; here the even one is above.
    assert!(denoted(9007199254740996.0, "9007199254740995"));
    assert!(!denoted(9007199254740994.0, "9007199254740995"));
    // Half of the least positive number goes to zero, a little more goes up.
    let half = "0.000000000000000000000000000000000000000000000000000000000000000000000000000000000000000000000000000000000000000000000000000000000000000000000000000000000000000000000000000000000000000000000000000000000000000000000000000000000000000000000000000000000000000000000000000000000000000000000000000000000000000000000000000000000000000000000000024703282292062327208051224";
    assert!(denoted(0.0, half));
    assert!(!denoted(5e-324, half));
}

#[test]
fn what_the_machine_prints_denotes_what_it_printed() {
    let mut state: u64 = 0x9E37_79B9_7F4A_7C15;
    let mut next = move || {
        state ^= state << 13;
        state ^= state >> 7;
        state ^= state << 17;
        state
    };
    let one = 1.0f64.to_bits();
    let mut checked = 0;
    while checked < 300 {
        let bits = next() % (one + 1);
        let text = f64::from_bits(bits).to_string();
        assert!(is_denoted_by(bits, &text), "{}", text);
        assert_eq!(text.parse::<f64>().unwrap().to_bits(), bits);
        if bits > 0 {
            assert!(!is_denoted_by(bits - 1, &text), "{}", text);
        }
        assert!(!is_denoted_by(bits + 1, &text), "{}", text);
        checked += 1;
    }
}

#[test]
fn what_the_machine_reads_is_what_a_numeral_denotes() {
    let mut state: u64 = 0x2545_F491_4F6C_DD1D;
    let mut next = move || {
        state ^= state << 13;
        state ^= state >> 7;
        state ^= state << 17;
        state
    };
    let mut checked = 0;
    while checked < 300 {
        let whole = next() % 1000;
        let digits = 1 + next() % 30;
        let mut text = format!("{}.", whole);
        for _ in 0..digits {
            text.push(char::from(b'0' + (next() % 10) as u8));
        }
        let read = text.parse::<f64>().unwrap().to_bits();
        assert!(is_denoted_by(read, &text), "{}", text);
        assert!(!is_denoted_by(read + 1, &text), "{}", text);
        if read > 0 {
            assert!(!is_denoted_by(read - 1, &text), "{}", text);
        }
        checked += 1;
    }
}

#[test]
fn a_scale_keeps_factor_and_numeral() {
    let scale = Scale::new(0.25f64.to_bits(), "0.25").unwrap();
    assert_eq!(scale.factor(), 0.25f64.to_bits());
    assert_eq!(scale.as_str(), "0.25");
    assert!(Scale::new(0.25f64.to_bits(), "0.5").is_none());
    assert!(Scale::new(0.25f64.to_bits(), "a quarter").is_none());
}

#[test]
fn factors_are_joined_with_their_numerals_in_order() {
    let factors = vec![0.5f64.to_bits(), 0.25f64.to_bits(), 1.0f64.to_bits()];
    let numerals = vec![String::from("0.5"), String::from("0.25"), String::from("1")];
    let scales = join_scales(&factors, &numerals).unwrap();
    assert_eq!(scales.len(), 3);
    for i in 0..3 {
        assert_eq!(scales[i].factor(), factors[i]);
        assert_eq!(scales[i].as_str(), numerals[i]);
    }
    assert_eq!(join_scales(&Vec::new(), &Vec::new()), Ok(Vec::new()));
}

#[test]
fn numerals_must_be_one_for_each_factor() {
    let factors = vec![0.5f64.to_bits(), 0.25f64.to_bits()];
    assert_eq!(
        join_scales(&factors, &vec![String::from("0.5")]),
        Err(ScaleError::CountMismatch { factors: 2, numerals: 1 })
    );
    assert_eq!(
        join_scales(&Vec::new(), &vec![String::from("x")]),
        Err(ScaleError::CountMismatch { factors: 0, numerals: 1 })
    );
}

#[test]
fn a_numeral_that_says_another_number_is_refused() {
    let factors = vec![0.5f64.to_bits(), 0.25f64.to_bits(), 1.0f64.to_bits()];
    let numerals = vec![String::from("0.5"), String::from("0.26"), String::from("one")];
    assert_eq!(join_scales(&factors, &numerals), Err(ScaleError::Unfaithful { sample: 1 }));
    let numerals = vec![String::from("0.5"), String::from("0.25"), String::from("one")];
    assert_eq!(join_scales(&factors, &numerals), Err(ScaleError::Unfaithful { sample: 2 }));
}
