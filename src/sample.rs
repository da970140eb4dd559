//! Random values that the target format represents exactly.
use crate::decode::{decoded, encode, round_to_quantum};
use crate::draw::{draw, range_end, range_start};
use crate::format::{EMAX, EMIN, MIN_EXP_SUBNORMAL, P, PM1};
use crate::value::ExtendedValue;
use crate::wide::{lemma_wide_join, lemma_wide_split, lemma_word_powers, wide};
use core::cmp::Ordering;
use core::ops::RangeInclusive;
use rand::rngs::StdRng;
use vstd::arithmetic::div_mod::{lemma_mod_breakdown, lemma_mod_multiples_vanish};
use vstd::arithmetic::power2::{
    lemma_pow2_adds, lemma_pow2_pos, lemma_pow2_strictly_increases, lemma_pow2_unfold, pow2,
};
use vstd::prelude::*;

verus! {

/// The leading bit of a normal significand, within its high word (`2^108`).
pub const HI_HIDDEN_BIT: u128 = 0x1000_0000_0000_0000_0000_0000_0000;

/// The largest high word of a normal significand's fraction.
pub const HI_MAX: u128 = HI_HIDDEN_BIT - 1;

/// The significand of the sample whose leading bit has exponent `t`: for a
/// normal `t` the drawn fraction below a hidden bit at `2^(P-1)`; for a
/// subnormal `t` the drawn bits cut to the width left above the subnormal
/// quantum, under a leading bit; none below the quantum.
pub open spec fn sampled_significand(t: int, h: u128, l: u128) -> nat {
    if t >= EMIN {
        wide(h, l) + pow2(PM1 as nat)
    } else if t >= MIN_EXP_SUBNORMAL {
        let n = (t - MIN_EXP_SUBNORMAL) as nat;
        pow2(n) + wide(h, l) % pow2(n)
    } else {
        0
    }
}

/// The exponent of the sample's significand.
pub open spec fn sampled_exponent(t: int) -> int {
    if t >= EMIN {
        t - PM1
    } else {
        MIN_EXP_SUBNORMAL as int
    }
}

/// The exact value sampled from the draws `sign`, `t`, `h`, `l`.
pub open spec fn sampled(sign: u32, t: int, h: u128, l: u128) -> ExtendedValue {
    let m = sampled_significand(t, h, l);
    ExtendedValue {
        negative: sign == 1,
        hi: (m / pow2(128)) as u128,
        lo: (m % pow2(128)) as u128,
        exp: sampled_exponent(t) as i32,
        witness: Ordering::Equal,
    }
}

/// The number of significand bits that the target format has at a leading
/// exponent `t`.
pub open spec fn width_at(t: int) -> nat {
    if t >= EMIN {
        P as nat
    } else {
        (t - MIN_EXP_SUBNORMAL + 1) as nat
    }
}

/// `2^k` for `k < 128`.
fn pow2_word(k: u32) -> (r: u128)
    requires
        k < 128,
    ensures
        r == pow2(k as nat),
{
    let mut r: u128 = 1;
    let mut i: u32 = 0;
    proof {
        lemma_word_powers();
        vstd::arithmetic::power2::lemma2_to64();
    }
    while i < k
        invariant
            i <= k < 128,
            r == pow2(i as nat),
            pow2(127) == 0x8000_0000_0000_0000_0000_0000_0000_0000,
        decreases k - i,
    {
        proof {
            lemma_pow2_unfold(i as nat + 1);
            if i + 1 < 127 {
                lemma_pow2_strictly_increases(i as nat + 1, 127);
            }
        }
        r = r * 2;
        i = i + 1;
    }
    r
}

/// The value sampled from the draws: a sign, the leading exponent `t`, and the
/// words `h` and `l` of the fraction.
pub fn from_draws(sign: u32, t: i32, h: u128, l: u128) -> (r: ExtendedValue)
    requires
        sign <= 1,
        h <= HI_MAX,
    ensures
        r == sampled(sign, t as int, h, l),
{
    proof {
        lemma_word_powers();
        vstd::arithmetic::power2::lemma2_to64();
    }
    let (hi, lo, exp) = if t >= EMIN {
        proof {
            lemma_pow2_adds(108, 128);
            assert(pow2(108) == HI_HIDDEN_BIT) by {
                lemma_pow2_adds(64, 44);
                lemma_pow2_adds(32, 12);
            }
            assert(wide(h, l) + pow2(PM1 as nat) == wide((h + HI_HIDDEN_BIT) as u128, l)) by (
            nonlinear_arith)
                requires
                    pow2(236) == pow2(108) * pow2(128),
                    pow2(108) == HI_HIDDEN_BIT,
                    PM1 == 236,
                    wide(h, l) == h as nat * pow2(128) + l as nat,
                    wide((h + HI_HIDDEN_BIT) as u128, l) == (h + HI_HIDDEN_BIT) as nat * pow2(128)
                        + l as nat,
            ;
        }
        (h + HI_HIDDEN_BIT, l, t - PM1)
    } else if t >= MIN_EXP_SUBNORMAL {
        let n: u32 = (t - MIN_EXP_SUBNORMAL) as u32;
        let ghost x = wide(h, l);
        if n >= 128 {
            let p = pow2_word(n - 128);
            proof {
                let k = (n - 128) as nat;
                lemma_pow2_adds(k, 128);
                assert(k + 128 == n as nat);
                lemma_pow2_pos(k);
                lemma_wide_split(h, l);
                assert(pow2(n as nat) == pow2(128) * p) by (nonlinear_arith)
                    requires
                        pow2(k + 128) == pow2(k) * pow2(128),
                        k + 128 == n as nat,
                        p == pow2(k),
                ;
                lemma_mod_breakdown(x as int, pow2(128) as int, p as int);
                assert(x % pow2(n as nat) == pow2(128) * (h % p) + l);
                if k < 108 {
                    lemma_pow2_strictly_increases(k, 108);
                }
                assert(pow2(108) == HI_HIDDEN_BIT) by {
                    lemma_pow2_adds(64, 44);
                    lemma_pow2_adds(32, 12);
                }
                assert(h % p < p) by (nonlinear_arith)
                    requires
                        p > 0,
                ;
                assert(h % p + p < 0x1_0000_0000_0000_0000_0000_0000_0000_0000);
                assert(((h % p + p) as u128) as nat == h % p + p);
                assert(pow2(n as nat) + x % pow2(n as nat) == wide((h % p + p) as u128, l))
                    by (nonlinear_arith)
                    requires
                        ((h % p + p) as u128) as nat == h % p + p,
                        pow2(n as nat) == pow2(128) * p,
                        x % pow2(n as nat) == pow2(128) * (h % p) + l,
                        wide((h % p + p) as u128, l) == (h % p + p) as nat * pow2(128) + l as nat,
                ;
            }
            (h % p + p, l, MIN_EXP_SUBNORMAL)
        } else {
            let p = pow2_word(n);
            proof {
                lemma_pow2_adds(n as nat, (128 - n) as nat);
                lemma_pow2_pos(n as nat);
                lemma_pow2_pos((128 - n) as nat);
                lemma_mod_multiples_vanish(
                    h as int * pow2((128 - n) as nat) as int,
                    l as int,
                    p as int,
                );
                if n < 127 {
                    lemma_pow2_strictly_increases(n as nat, 127);
                }
                assert(x == p * (h as int * pow2((128 - n) as nat) as int) + l) by (nonlinear_arith)
                    requires
                        x == h as nat * pow2(128) + l as nat,
                        pow2(128) == p * pow2((128 - n) as nat),
                ;
            }
            (0, l % p + p, MIN_EXP_SUBNORMAL)
        }
    } else {
        (0, 0, MIN_EXP_SUBNORMAL)
    };
    proof {
        lemma_wide_split(hi, lo);
    }
    ExtendedValue { negative: sign == 1, hi, lo, exp, witness: Ordering::Equal }
}

impl ExtendedValue {
    /// A random value whose leading bit has an exponent drawn uniformly from
    /// `exp_range`, with a uniform sign and uniform significand bits below the
    /// leading one: as many as the target format has at that exponent, so
    /// that it represents the value exactly.
    pub fn random_from_exp_range(rng: &mut StdRng, exp_range: &RangeInclusive<i32>) -> (r: Self)
        requires
            exp_range@.start <= exp_range@.end,
        ensures
            exists|sign: u32, t: int, h: u128, l: u128|
                #![trigger sampled(sign, t, h, l)]
                sign <= 1 && exp_range@.start <= t <= exp_range@.end && h <= HI_MAX && r
                    == sampled(sign, t, h, l),
    {
        let start = range_start(exp_range);
        let end = range_end(exp_range);
        let sign = draw(rng, 0, 1) as u32;
        let offset = draw(rng, 0, (end as i64 - start as i64) as u128);
        let t: i32 = (start as i64 + offset as i64) as i32;
        let h = draw(rng, 0, HI_MAX);
        let l = draw(rng, 0, u128::MAX);
        from_draws(sign, t, h, l)
    }
}

/// The same value with its significand scaled up by `2^k`, as an oracle of a
/// wider precision may hand it out.
pub open spec fn scaled(v: ExtendedValue, k: nat) -> ExtendedValue {
    let m = v.mantissa() * pow2(k);
    ExtendedValue {
        negative: v.negative,
        hi: (m / pow2(128)) as u128,
        lo: (m % pow2(128)) as u128,
        exp: (v.exp - k) as i32,
        witness: v.witness,
    }
}

/// The sampled significand has the width that the target format has at the
/// drawn leading exponent `t`, and its leading bit has exponent `t`.
pub proof fn lemma_sample_width(sign: u32, t: int, h: u128, l: u128)
    requires
        sign <= 1,
        h <= HI_MAX,
        MIN_EXP_SUBNORMAL <= t,
    ensures
        sampled(sign, t, h, l).mantissa() == sampled_significand(t, h, l),
        pow2((width_at(t) - 1) as nat) <= sampled_significand(t, h, l) < pow2(width_at(t)),
        sampled_exponent(t) + width_at(t) - 1 == t,
{
    lemma_word_powers();
    lemma_wide_split(h, l);
    let m = sampled_significand(t, h, l);
    if t >= EMIN {
        lemma_pow2_adds(108, 128);
        lemma_pow2_unfold(237);
        assert(pow2(108) == HI_HIDDEN_BIT) by {
            vstd::arithmetic::power2::lemma2_to64();
            lemma_pow2_adds(64, 44);
            lemma_pow2_adds(32, 12);
        }
        assert(wide(h, l) < pow2(236)) by (nonlinear_arith)
            requires
                wide(h, l) == h as nat * pow2(128) + l as nat,
                h + 1 <= pow2(108),
                l < pow2(128),
                pow2(236) == pow2(108) * pow2(128),
        ;
        assert((width_at(t) - 1) as nat == 236);
    } else {
        let n = (t - MIN_EXP_SUBNORMAL) as nat;
        lemma_pow2_unfold(n + 1);
        lemma_pow2_pos(n);
        assert(wide(h, l) % pow2(n) < pow2(n)) by (nonlinear_arith)
            requires
                pow2(n) > 0,
        ;
        assert((width_at(t) - 1) as nat == n);
    }
    if width_at(t) < 256 {
        lemma_pow2_strictly_increases(width_at(t), 256);
    }
    lemma_wide_join(m);
}

/// Round trip: decoding a sample, with its significand scaled to any width
/// within `P` bits, reproduces the sampled sign, exponent and significand bit
/// for bit.
pub proof fn lemma_sample_round_trip(sign: u32, t: int, h: u128, l: u128, k: nat)
    requires
        sign <= 1,
        h <= HI_MAX,
        MIN_EXP_SUBNORMAL <= t <= EMAX,
        sampled(sign, t, h, l).mantissa() * pow2(k) < pow2(P as nat),
    ensures
        decoded(scaled(sampled(sign, t, h, l), k), false) == (
            sign,
            sampled(sign, t, h, l).exp,
            (sampled(sign, t, h, l).hi, sampled(sign, t, h, l).lo),
        ),
{
    let v = sampled(sign, t, h, l);
    let m = v.mantissa();
    lemma_sample_width(sign, t, h, l);
    lemma_word_powers();
    lemma_pow2_pos(k);
    lemma_pow2_strictly_increases(237, 256);
    let mk = m * pow2(k);
    lemma_wide_join(mk);
    lemma_wide_split(v.hi, v.lo);
    if t >= EMIN && k > 0 {
        lemma_pow2_adds(236, k);
        if k > 1 {
            lemma_pow2_strictly_increases(237, 236 + k);
        }
        assert(mk >= pow2(236 + k)) by (nonlinear_arith)
            requires
                m >= pow2(236),
                mk == m * pow2(k),
                pow2(236 + k) == pow2(236) * pow2(k),
                pow2(k) > 0,
        ;
    }
    if t < EMIN {
        lemma_pow2_pos((width_at(t) - 1) as nat);
        assert(k <= 237) by {
            if k > 237 {
                lemma_pow2_strictly_increases(237, k);
                assert(mk >= pow2(k)) by (nonlinear_arith)
                    requires
                        mk == m * pow2(k),
                        m >= 1,
                ;
            }
        }
        if k > 0 {
            lemma_pow2_pos((k - 1) as nat);
            vstd::arithmetic::div_mod::lemma_fundamental_div_mod_converse(
                mk as int,
                pow2(k) as int,
                m as int,
                0,
            );
            assert(round_to_quantum(mk, k, Ordering::Equal) == m);
        }
    }
    let w = scaled(v, k);
    lemma_pow2_pos((width_at(t) - 1) as nat);
    assert(m != 0);
    assert(v.hi == (m / pow2(128)) as u128 && v.lo == (m % pow2(128)) as u128);
    assert(encode(sign, m, v.exp as int) == (sign, v.exp, (v.hi, v.lo)));
    assert(w.mantissa() == mk);
    assert(w.sign_bit() == sign);
    assert(v.exp == sampled_exponent(t));
    if t >= EMIN {
        assert(k == 0);
        vstd::arithmetic::power2::lemma2_to64();
        assert(mk == m);
        assert(w.exp == v.exp);
        assert(decoded(w, false) == encode(sign, m, v.exp as int));
    } else {
        assert(w.exp == MIN_EXP_SUBNORMAL - k);
        if k == 0 {
            vstd::arithmetic::power2::lemma2_to64();
            assert(mk == m);
            assert(decoded(w, false) == encode(sign, m, MIN_EXP_SUBNORMAL as int));
        } else {
            assert(decoded(w, false) == encode(sign, m, MIN_EXP_SUBNORMAL as int));
        }
    }
}

} // verus!
