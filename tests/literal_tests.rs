use rand::rngs::StdRng;
use rand::SeedableRng;
use rug237::literal::{gen_number_str, max_digits, number_literal, E10MAX, E10MIN};
use rug237::numeral::round_numeral;
use std::ops::RangeInclusive;

#[test]
fn literal_with_exponent_counts_the_fraction() {
    assert_eq!(number_literal(0, &vec![1, 2], &vec![5], 0), "+12.5e1");
    assert_eq!(number_literal(2, &vec![5], &vec![], -7), "5.0e-7");
    assert_eq!(number_literal(1, &vec![4], &vec![], 5), "-4.0e5");
}

#[test]
fn literal_without_exponent() {
    assert_eq!(number_literal(1, &vec![3], &vec![], 0), "-3.");
    assert_eq!(number_literal(0, &vec![9], &vec![1, 2], -2), "+9.12");
}

#[test]
fn literal_of_zeros_gets_a_seven() {
    assert_eq!(number_literal(2, &vec![0], &vec![], 3), "0.7e4");
    assert_eq!(number_literal(2, &vec![0, 0], &vec![0], -2), "00.07");
}

#[test]
fn digit_limits_follow_the_range() {
    assert_eq!(max_digits(-102, 102), 71);
    assert_eq!(max_digits(-512, 512), 77);
    assert_eq!(max_digits(E10MIN, E10MAX), 183470);
    assert_eq!(max_digits(-1024, 1024), 80);
}

#[test]
fn generated_literals_are_well_formed() {
    let mut rng = StdRng::seed_from_u64(78913);
    let range: RangeInclusive<i32> = -102..=102;
    for _ in 0..500 {
        let s = gen_number_str(&mut rng, &range);
        let body = s.strip_prefix(['+', '-']).unwrap_or(&s);
        let (mantissa, exp) = match body.split_once('e') {
            Some((m, e)) => (m, e.parse::<i32>().unwrap()),
            None => (body, 0),
        };
        let (int_part, fract_part) = mantissa.split_once('.').unwrap();
        assert!(!int_part.is_empty());
        assert!(int_part.chars().chain(fract_part.chars()).all(|c| c.is_ascii_digit()));
        let n_digits = int_part.len() + fract_part.len();
        assert!(n_digits <= 72);
        let n_fract = if exp != 0 && fract_part == "0" { 0 } else { fract_part.len() as i32 };
        if exp != 0 {
            assert!(range.contains(&(exp - n_fract)) || fract_part == "0");
        }
        assert!(int_part.chars().chain(fract_part.chars()).any(|c| c != '0') || fract_part == "0");
    }
}

#[test]
fn short_numerals_stay() {
    assert_eq!(round_numeral("12345"), Some("12345".to_string()));
    assert_eq!(round_numeral("0"), Some("0".to_string()));
    assert_eq!(round_numeral("-987"), Some("-987".to_string()));
}

#[test]
fn malformed_numerals_are_refused() {
    assert_eq!(round_numeral(""), None);
    assert_eq!(round_numeral("-"), None);
    assert_eq!(round_numeral("-0"), None);
    assert_eq!(round_numeral("007"), None);
    assert_eq!(round_numeral("12a"), None);
    assert_eq!(round_numeral("1.5"), None);
}

#[test]
fn long_numerals_round_half_to_even() {
    let odd_tie = format!("1{}15", "0".repeat(70));
    assert_eq!(round_numeral(&odd_tie), Some(format!("1{}20", "0".repeat(70))));
    let even_tie = format!("1{}5", "0".repeat(71));
    assert_eq!(round_numeral(&even_tie), Some(format!("1{}", "0".repeat(72))));
    let above = format!("{}51", "1".repeat(72));
    assert_eq!(round_numeral(&above), Some(format!("{}200", "1".repeat(71))));
    let below = format!("{}49", "1".repeat(72));
    assert_eq!(round_numeral(&below), Some(format!("{}00", "1".repeat(72))));
    let tie_then_digit = format!("2{}501", "0".repeat(71));
    assert_eq!(round_numeral(&tie_then_digit), Some(format!("2{}1000", "0".repeat(70))));
}

#[test]
fn long_numerals_carry() {
    let nines = format!("{}5", "9".repeat(72));
    assert_eq!(round_numeral(&nines), Some(format!("1{}", "0".repeat(73))));
    let inner = format!("1{}9", "9".repeat(71));
    assert_eq!(round_numeral(&inner), Some(format!("2{}", "0".repeat(72))));
}

#[test]
fn long_negative_numerals_truncate() {
    let n = format!("-{}", "9".repeat(73));
    assert_eq!(round_numeral(&n), Some(format!("-{}00", "9".repeat(71))));
}
