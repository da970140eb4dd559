use rug237::decode::round_shifted;
use rug237::{ExtendedValue, EMAX, MIN_EXP_SUBNORMAL, P};
use std::cmp::Ordering;

fn value(negative: bool, hi: u128, lo: u128, exp: i32, witness: Ordering) -> ExtendedValue {
    ExtendedValue { negative, hi, lo, exp, witness }
}

// 17.625 at P bits: 141 * 2^-3, left-aligned to P bits.
#[test]
fn test_from_str() {
    let f = value(false, 357477469264360691222070303916032, 0, -232, Ordering::Equal);
    assert_eq!(f.decode(true), (0, -3, (0, 141)));
}

// 2^-262378 at P bits.
#[test]
fn test_min_pos_subnormal() {
    let f = value(false, 1 << 108, 0, -262614, Ordering::Equal);
    assert_eq!(f.decode(true), (0, -262378, (0, 1)));
}

// -0.9818036132127703363504450836394764653184121e-78913, rounded to the
// subnormal grid at P bits (rounded up).
#[test]
fn test_subnormal() {
    let f = value(
        true,
        513390108016597180301746975698182,
        122229112927794302983651558161860906564,
        -262380,
        Ordering::Greater,
    );
    assert_eq!(
        f.decode(true),
        (
            1,
            -262378,
            (128347527004149295075436743924545, 200698461692417807477600193256349332369)
        )
    );
}

// -21.75e-78985, rounded to the subnormal grid at P bits: one quantum.
#[test]
fn test_subnormal_near_zero() {
    let f = value(true, 1 << 108, 0, -262614, Ordering::Greater);
    assert_eq!(f.decode(true), (1, -262378, (0, 1)));
}

// 2^262144 - 2^261907, the largest finite value.
#[test]
fn test_max() {
    let f = value(false, (1 << 109) - 1, u128::MAX, 261907, Ordering::Equal);
    assert_eq!(f.decode(true), (0, 261907, ((1 << (237 - 128)) - 1, u128::MAX)));
}

// 320.1000009 rounded to P bits (rounded down).
#[test]
fn test_normal_gt1() {
    let f = value(
        false,
        405774958273941771624501157387890,
        164981958326160731124041003267846608813,
        -228,
        Ordering::Less,
    );
    assert_eq!(
        f.decode(true),
        (
            0,
            -228,
            (405774958273941771624501157387890, 164981958326160731124041003267846608813)
        )
    );
}

// 2^108 * 2^128 * 2^275 at P bits.
#[test]
fn lib_test_normal_2_pow_275() {
    const HI_HIDDEN_BIT: u128 = 1_u128 << 108;
    let f = value(false, HI_HIDDEN_BIT, 0, 275, Ordering::Equal);
    assert!(f.hi < 1 << (P - 128));
    let (s, e, (h, _)) = f.decode(false);
    assert!(s == 0 || s == 1);
    assert_eq!(h.leading_zeros(), (256 - P));
    assert_eq!(e, 275);
}

#[test]
fn lib_test_normal_1() {
    let (e, (h, l)) = (
        -131198,
        (531439310060859797527772502089072_u128, 50579904501390594736454450167121974314_u128),
    );
    let f = value(false, h, l, e, Ordering::Equal);
    assert_eq!(f.decode(false), (0_u32, e, (h, l)));
    println!("{:?}", f.decode(false));
    println!("{:?}", f.decode(true));
}

// 555 * 2^-23718 times 21747048302197486 * 2^29: an exact product.
#[test]
fn lib_test_normal() {
    let z = value(false, 424661712810566800616627487375360, 0, -23862, Ordering::Equal);
    assert_eq!(z.decode(false), (0, -23862, (424661712810566800616627487375360, 0)));
}

// 2^262140 times 2^4: the product 2^262144 is beyond range.
#[test]
fn lib_test_overflow() {
    let z = value(false, 1 << 108, 0, 261908, Ordering::Equal);
    assert_eq!(z.decode(false), (0, 262144, (0, 0)));
}

// The literal of `test_subnormal` rounded to P bits only: an exact tie on
// the subnormal grid, reached from below, whose lower neighbour is even.
#[test]
fn subnormal_tie_reached_from_below_goes_to_even() {
    let f = value(
        true,
        513390108016597180301746975698182,
        122229112927794302983651558161860906562,
        -262380,
        Ordering::Less,
    );
    let expected = (
        1,
        -262378,
        (128347527004149295075436743924545, 200698461692417807477600193256349332368),
    );
    assert_eq!(f.decode(true), expected);
    assert_eq!(f.decode(false), expected);
}

// The literal of `test_subnormal_near_zero` rounded to P bits only.
#[test]
fn subnormal_above_half_quantum_rounds_to_one_quantum() {
    let f = value(
        true,
        627958744839382136138822771075296,
        128621824369567381692029628992069734289,
        -262615,
        Ordering::Greater,
    );
    assert_eq!(f.decode(true), (1, -262378, (0, 1)));
}

#[test]
fn tie_with_odd_lower_neighbour_goes_up_to_even() {
    // 3 * 2^(MIN_EXP_SUBNORMAL - 1): halfway between quanta 1 and 2.
    for w in [Ordering::Less, Ordering::Equal] {
        let f = value(false, 0, 3, MIN_EXP_SUBNORMAL - 1, w);
        assert_eq!(f.decode(false), (0, MIN_EXP_SUBNORMAL, (0, 2)));
        assert_eq!(f.decode(true), (0, MIN_EXP_SUBNORMAL, (0, 2)));
    }
}

#[test]
fn tie_with_even_lower_neighbour_stays() {
    // 5 * 2^(MIN_EXP_SUBNORMAL - 1): halfway between quanta 2 and 3.
    for w in [Ordering::Less, Ordering::Equal, Ordering::Greater] {
        let f = value(false, 0, 5, MIN_EXP_SUBNORMAL - 1, w);
        assert_eq!(f.decode(false), (0, MIN_EXP_SUBNORMAL, (0, 2)));
    }
    // Half a quantum: collapses to zero, keeping the sign.
    for w in [Ordering::Less, Ordering::Equal, Ordering::Greater] {
        let g = value(true, 0, 1, MIN_EXP_SUBNORMAL - 1, w);
        assert_eq!(g.decode(false), (1, 0, (0, 0)));
    }
    // 2^(MIN_EXP_SUBNORMAL - 1) at full precision, as the oracle hands it out.
    let h = value(false, 1 << 108, 0, MIN_EXP_SUBNORMAL - 1 - 236, Ordering::Equal);
    assert_eq!(h.decode(false), (0, 0, (0, 0)));
    assert_eq!(h.decode(true), (0, 0, (0, 0)));
}

#[test]
fn tie_after_rounding_up_is_not_raised_again() {
    // 3 * 2^(MIN_EXP_SUBNORMAL - 1), already rounded up: stays at quantum 1.
    let f = value(false, 0, 3, MIN_EXP_SUBNORMAL - 1, Ordering::Greater);
    assert_eq!(f.decode(false), (0, MIN_EXP_SUBNORMAL, (0, 1)));
    assert_eq!(f.decode(true), (0, MIN_EXP_SUBNORMAL, (0, 1)));
    // The same tie at full precision.
    let g = value(false, 3 << 107, 0, MIN_EXP_SUBNORMAL - 1 - 235, Ordering::Greater);
    assert_eq!(g.decode(false), (0, MIN_EXP_SUBNORMAL, (0, 1)));
}

#[test]
fn subnormal_rounding_off_the_tie() {
    // 0.75 of a quantum rounds up, 0.25 rounds down to zero.
    let f = value(false, 0, 3, MIN_EXP_SUBNORMAL - 2, Ordering::Greater);
    assert_eq!(f.decode(false), (0, MIN_EXP_SUBNORMAL, (0, 1)));
    let g = value(false, 0, 1, MIN_EXP_SUBNORMAL - 2, Ordering::Less);
    assert_eq!(g.decode(false), (0, 0, (0, 0)));
}

#[test]
fn rounding_carries_across_the_words() {
    // (2^129 - 1) / 2 = 2^128 - 0.5, a tie whose lower neighbour is odd.
    let f = value(false, 1, u128::MAX, MIN_EXP_SUBNORMAL - 1, Ordering::Equal);
    assert_eq!(f.decode(false), (0, MIN_EXP_SUBNORMAL, (1, 0)));
}

#[test]
fn far_below_the_grid_is_zero() {
    let f = value(true, u128::MAX, u128::MAX, i32::MIN, Ordering::Less);
    assert_eq!(f.decode(false), (1, 0, (0, 0)));
    let g = value(false, u128::MAX, u128::MAX, MIN_EXP_SUBNORMAL - 256, Ordering::Equal);
    assert_eq!(g.decode(false), (0, MIN_EXP_SUBNORMAL, (0, 1)));
    let h = value(false, u128::MAX >> 1, u128::MAX, MIN_EXP_SUBNORMAL - 256, Ordering::Equal);
    assert_eq!(h.decode(false), (0, 0, (0, 0)));
}

#[test]
fn overflow_boundary_at_full_precision() {
    let top = value(true, 1 << 108, 0, EMAX - 236, Ordering::Equal);
    assert_eq!(top.decode(false), (1, EMAX - 236, (1 << 108, 0)));
    assert_eq!(top.decode(true), (1, EMAX, (0, 1)));
    let over = value(true, 1 << 108, 0, EMAX - 235, Ordering::Equal);
    assert_eq!(over.decode(false), (1, EMAX + 1, (0, 0)));
    assert_eq!(over.decode(true), (1, EMAX + 1, (0, 0)));
}

#[test]
fn zero_keeps_its_sign() {
    let z = value(true, 0, 0, -5, Ordering::Equal);
    assert_eq!(z.decode(true), (1, 0, (0, 0)));
    assert_eq!(z.decode(false), (1, 0, (0, 0)));
    let p = value(false, 0, 0, MIN_EXP_SUBNORMAL - 3, Ordering::Less);
    assert_eq!(p.decode(false), (0, 0, (0, 0)));
}

#[test]
fn reduce_makes_the_significand_odd() {
    let f = value(false, 0, 96, 10, Ordering::Equal);
    assert_eq!(f.decode(true), (0, 15, (0, 3)));
    assert_eq!(f.decode(false), (0, 10, (0, 96)));
    let g = value(false, 1, 0, -3, Ordering::Equal);
    assert_eq!(g.decode(true), (0, 125, (0, 1)));
}

#[test]
fn round_shifted_divides_and_rounds() {
    assert_eq!(round_shifted(0, 10, 2, Ordering::Equal), (0, 2));
    assert_eq!(round_shifted(0, 14, 2, Ordering::Equal), (0, 4));
    assert_eq!(round_shifted(0, 14, 2, Ordering::Greater), (0, 3));
    assert_eq!(round_shifted(0, 11, 2, Ordering::Greater), (0, 3));
    assert_eq!(round_shifted(0, 9, 2, Ordering::Equal), (0, 2));
    assert_eq!(round_shifted(1, 0, 128, Ordering::Equal), (0, 1));
    assert_eq!(round_shifted(u128::MAX, u128::MAX, 300, Ordering::Less), (0, 0));
}
