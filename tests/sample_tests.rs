use rand::rngs::StdRng;
use rand::SeedableRng;
use rug237::sample::{from_draws, HI_HIDDEN_BIT, HI_MAX};
use rug237::{ExtendedValue, EMAX, EMIN, MIN_EXP_SUBNORMAL, P, PM1};
use std::cmp::Ordering;
use std::ops::RangeInclusive;

fn bit_len(v: &ExtendedValue) -> i32 {
    if v.hi != 0 {
        256 - v.hi.leading_zeros() as i32
    } else {
        128 - v.lo.leading_zeros() as i32
    }
}

// The same value with its significand shifted left to fill P bits.
fn at_full_precision(v: &ExtendedValue) -> ExtendedValue {
    let k = P as i32 - bit_len(v);
    let (hi, lo) = if k == 0 {
        (v.hi, v.lo)
    } else if k < 128 {
        ((v.hi << k) | (v.lo >> (128 - k)), v.lo << k)
    } else {
        (v.lo << (k - 128), 0)
    };
    ExtendedValue { hi, lo, exp: v.exp - k, ..*v }
}

#[test]
fn test_normal_lt1() {
    let mut rng = StdRng::seed_from_u64(237);
    let exp_range: RangeInclusive<i32> = -304..=-236;
    let f = ExtendedValue::random_from_exp_range(&mut rng, &exp_range);
    assert!(f.hi < 1 << (P - 128));
    let (s, e, (h, _)) = f.decode(true);
    assert!(s == 0 || s == 1);
    assert!(exp_range.contains(&(e + PM1)));
    assert!(h.leading_zeros() >= 256 - P);
}

#[test]
fn test_normal_2_pow_275() {
    let mut rng = StdRng::seed_from_u64(275);
    let exp_range: RangeInclusive<i32> = 275..=275;
    let f = ExtendedValue::random_from_exp_range(&mut rng, &exp_range);
    assert!(f.hi < 1 << (P - 128));
    let (s, e, (h, _)) = f.decode(false);
    assert!(s == 0 || s == 1);
    assert_eq!(h.leading_zeros(), (256 - P));
    assert_eq!(e + PM1, 275);
}

#[test]
fn normal_draws_get_the_hidden_bit() {
    let v = from_draws(1, 275, 0, 0);
    assert!(v.negative);
    assert_eq!((v.hi, v.lo, v.exp, v.witness), (HI_HIDDEN_BIT, 0, 275 - PM1, Ordering::Equal));
    let w = from_draws(0, EMIN, HI_MAX, 7);
    assert_eq!((v.negative, w.negative), (true, false));
    assert_eq!((w.hi, w.lo, w.exp), (u128::MAX >> 19, 7, MIN_EXP_SUBNORMAL));
}

#[test]
fn subnormal_draws_are_cut_to_the_width_left() {
    let v = from_draws(0, MIN_EXP_SUBNORMAL + 3, 5, 13);
    assert_eq!((v.hi, v.lo, v.exp), (0, 13, MIN_EXP_SUBNORMAL));
    let w = from_draws(1, MIN_EXP_SUBNORMAL, HI_MAX, u128::MAX);
    assert_eq!((w.hi, w.lo, w.exp), (0, 1, MIN_EXP_SUBNORMAL));
    let x = from_draws(0, MIN_EXP_SUBNORMAL + 200, HI_MAX, 99);
    assert_eq!((x.hi, x.lo, x.exp), ((1 << 73) - 1, 99, MIN_EXP_SUBNORMAL));
    let y = from_draws(0, EMIN - 1, 0, 0);
    assert_eq!((y.hi, y.lo, y.exp), (1 << 107, 0, MIN_EXP_SUBNORMAL));
}

#[test]
fn draws_below_the_quantum_give_zero() {
    let v = from_draws(1, MIN_EXP_SUBNORMAL - 1, 3, 3);
    assert_eq!((v.hi, v.lo), (0, 0));
    assert_eq!(v.decode(false), (1, 0, (0, 0)));
}

#[test]
fn samples_round_trip_through_the_decoder() {
    let mut rng = StdRng::seed_from_u64(1);
    let ranges: [RangeInclusive<i32>; 5] = [
        -102..=102,
        MIN_EXP_SUBNORMAL..=EMIN - 1,
        MIN_EXP_SUBNORMAL..=EMIN + 2,
        EMIN..=EMAX,
        EMAX..=EMAX,
    ];
    for range in ranges.iter() {
        for _ in 0..200 {
            let v = ExtendedValue::random_from_exp_range(&mut rng, range);
            let lead = v.exp + bit_len(&v) - 1;
            assert!(range.contains(&lead));
            if lead >= EMIN {
                assert_eq!(bit_len(&v), P as i32);
            } else {
                assert_eq!(bit_len(&v), lead - MIN_EXP_SUBNORMAL + 1);
            }
            let expected = (v.negative as u32, v.exp, (v.hi, v.lo));
            assert_eq!(v.decode(false), expected);
            assert_eq!(at_full_precision(&v).decode(false), expected);
        }
    }
}

#[test]
fn draws_vary_over_the_range() {
    let mut rng = StdRng::seed_from_u64(42);
    let range: RangeInclusive<i32> = -1024..=1024;
    let mut exps = std::collections::BTreeSet::new();
    let mut signs = std::collections::BTreeSet::new();
    let mut words = std::collections::BTreeSet::new();
    for _ in 0..100 {
        let v = ExtendedValue::random_from_exp_range(&mut rng, &range);
        exps.insert(v.exp);
        signs.insert(v.negative);
        words.insert(v.lo);
    }
    assert!(exps.len() > 10);
    assert_eq!(signs.len(), 2);
    assert!(words.len() > 10);
}
