use pawnbot::dec::{parse_dec3, Dec3, MILLI_LIMIT};

fn milli_of(text: &str) -> Dec3 {
    parse_dec3(text).expect("the text should parse")
}

#[test]
fn rounds_down_past_three_decimals() {
    let d = milli_of("2.236067");
    assert_eq!(d.milli, 2236);
    assert!(!d.neg);
}

#[test]
fn rounds_half_away_from_zero() {
    // halves round up in magnitude
    assert_eq!(milli_of("2.2365").milli, 2237);
    assert_eq!(milli_of("0.0005").milli, 1);
    let n = milli_of("-2.2365");
    assert_eq!(n.milli, 2237);
    assert!(n.neg);
}

#[test]
fn rounds_below_half_down() {
    assert_eq!(milli_of("2.23649").milli, 2236);
    assert_eq!(milli_of("2.2364999999").milli, 2236);
}

#[test]
fn exact_values_are_kept() {
    assert_eq!(milli_of("2.5").milli, 2500);
    assert_eq!(milli_of("321").milli, 321000);
    assert_eq!(milli_of("0.988").milli, 988);
    assert_eq!(milli_of("4500.1").milli, 4500100);
}

#[test]
fn fourth_digit_five_carries() {
    assert_eq!(milli_of("1.0005").milli, 1001);
    assert_eq!(milli_of("0.9995").milli, 1000);
    assert_eq!(milli_of("0.99949").milli, 999);
}

#[test]
fn negative_sign_is_kept_except_on_zero() {
    let n = milli_of("-1.5");
    assert!(n.neg);
    assert_eq!(n.milli, 1500);
    // a magnitude that rounds to zero loses the sign
    let z = milli_of("-0.0001");
    assert!(!z.neg);
    assert_eq!(z.milli, 0);
}

#[test]
fn leading_zeros_are_accepted() {
    assert_eq!(milli_of("007.5").milli, 7500);
    assert_eq!(milli_of("0.5").milli, 500);
}

#[test]
fn malformed_text_is_rejected() {
    for bad in ["", "-", ".", "1.", ".5", "1..2", "1.2.3", "12a", "1e5", "+1", "- 1", "1 ", " 1"] {
        assert!(parse_dec3(bad).is_none(), "{:?} should not parse", bad);
    }
}

#[test]
fn range_limit_is_exact() {
    // the largest representable magnitude, in thousandths
    let top = milli_of("1000000000000");
    assert_eq!(top.milli, MILLI_LIMIT);
    assert!(parse_dec3("1000000000000.001").is_none());
    assert!(parse_dec3("10000000000000").is_none());
    assert_eq!(milli_of("999999999999.9994").milli, MILLI_LIMIT - 1);
}

#[test]
fn renders_without_trailing_zeros() {
    assert_eq!(Dec3 { neg: false, milli: 2236 }.to_text(), "2.236");
    assert_eq!(Dec3 { neg: false, milli: 1000 }.to_text(), "1");
    assert_eq!(Dec3 { neg: false, milli: 4500100 }.to_text(), "4500.1");
    assert_eq!(Dec3 { neg: false, milli: 2500 }.to_text(), "2.5");
    assert_eq!(Dec3 { neg: false, milli: 120 }.to_text(), "0.12");
    assert_eq!(Dec3 { neg: false, milli: 988 }.to_text(), "0.988");
    assert_eq!(Dec3 { neg: false, milli: 5 }.to_text(), "0.005");
    assert_eq!(Dec3 { neg: false, milli: 0 }.to_text(), "0");
    assert_eq!(Dec3 { neg: true, milli: 1001 }.to_text(), "-1.001");
    assert_eq!(Dec3 { neg: false, milli: 321000 }.to_text(), "321");
}

#[test]
fn parse_then_render_round_trip() {
    for text in ["2.236", "1", "4500.1", "0.988", "-1.001", "321", "0.005"] {
        assert_eq!(milli_of(text).to_text(), text);
    }
}
