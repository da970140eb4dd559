//! Encoding of a value in the target format: overflow, the shortest
//! significand, and rounding onto the subnormal grid.
use crate::format::{EMAX, MIN_EXP_SUBNORMAL, PM1};
use crate::value::ExtendedValue;
use crate::wide::{halve, increment, lemma_wide_split, lemma_word_powers, wide};
use core::cmp::Ordering;
use vstd::arithmetic::div_mod::{lemma_div_denominator, lemma_mod_breakdown};
use vstd::arithmetic::power2::{
    lemma_pow2_adds, lemma_pow2_pos, lemma_pow2_strictly_increases, lemma_pow2_unfold, pow2,
};
use vstd::prelude::*;

verus! {

/// The significand `m * 2^e` without its trailing zero bits, and the exponent
/// that keeps the value.
pub open spec fn strip_zeros(m: nat, e: int) -> (nat, int)
    decreases m,
{
    if m > 0 && m % 2 == 0 {
        strip_zeros(m / 2, e + 1)
    } else {
        (m, e)
    }
}

/// `m / 2^shift` rounded to an integer: to nearest; at a tie to the even
/// neighbour, except that a tie reached from a value already rounded up
/// (witness `Greater`) is not rounded up a second time.
pub open spec fn round_to_quantum(m: nat, shift: nat, witness: Ordering) -> nat {
    let q = m / pow2(shift);
    let rem = m % pow2(shift);
    let tie = pow2((shift - 1) as nat);
    if rem > tie || (rem == tie && witness != Ordering::Greater && q % 2 == 1) {
        q + 1
    } else {
        q
    }
}

/// The triple for sign, significand `m` and exponent `e`; a zero significand
/// gives exponent 0.
pub open spec fn encode(sign: u32, m: nat, e: int) -> (u32, i32, (u128, u128)) {
    if m == 0 {
        (sign, 0, (0, 0))
    } else {
        (sign, e as i32, ((m / pow2(128)) as u128, (m % pow2(128)) as u128))
    }
}

/// The triple that the target format stores for `v`: the overflow sentinel
/// when the exponent is beyond range, else the (optionally shortest)
/// significand, rounded onto the subnormal grid where its exponent lies below
/// the subnormal quantum.
pub open spec fn decoded(v: ExtendedValue, reduce: bool) -> (u32, i32, (u128, u128)) {
    if v.exp > EMAX - PM1 {
        (v.sign_bit(), (EMAX + 1) as i32, (0, 0))
    } else {
        let (m, e) = if reduce {
            strip_zeros(v.mantissa(), v.exp as int)
        } else {
            (v.mantissa(), v.exp as int)
        };
        if e < MIN_EXP_SUBNORMAL {
            encode(
                v.sign_bit(),
                round_to_quantum(m, (MIN_EXP_SUBNORMAL - e) as nat, v.witness),
                MIN_EXP_SUBNORMAL as int,
            )
        } else {
            encode(v.sign_bit(), m, e)
        }
    }
}

/// `2^(j+1)` splits quotient and remainder by `2^j` into one more bit.
pub proof fn lemma_pow2_step(m: nat, j: nat)
    ensures
        pow2(j + 1) == 2 * pow2(j),
        m / pow2(j + 1) == (m / pow2(j)) / 2,
        m % pow2(j + 1) == m % pow2(j) + ((m / pow2(j)) % 2) * pow2(j),
{
    lemma_pow2_unfold(j + 1);
    lemma_pow2_pos(j);
    lemma_div_denominator(m as int, pow2(j) as int, 2);
    lemma_mod_breakdown(m as int, pow2(j) as int, 2);
    assert(pow2(j) * 2 == pow2(j + 1));
}

/// Rounds the 256-bit value `hi * 2^128 + lo`, divided by `2^shift`, to an
/// integer as `round_to_quantum` says.
pub fn round_shifted(hi: u128, lo: u128, shift: i64, witness: Ordering) -> (r: (u128, u128))
    requires
        shift >= 1,
    ensures
        wide(r.0, r.1) == round_to_quantum(wide(hi, lo), shift as nat, witness),
{
    let ghost m = wide(hi, lo);
    proof {
        lemma_wide_split(hi, lo);
        lemma_word_powers();
    }
    if shift > 256 {
        proof {
            let s = shift as nat;
            if s - 1 > 256 {
                lemma_pow2_strictly_increases(256, (s - 1) as nat);
            }
            lemma_pow2_step(m, (s - 1) as nat);
            assert(m / pow2(s) == 0) by (nonlinear_arith)
                requires
                    m < pow2(s),
            ;
            assert(m % pow2(s) == m) by (nonlinear_arith)
                requires
                    m < pow2(s),
            ;
        }
        return (0, 0);
    }
    let sh: u32 = shift as u32;
    let mut qh = hi;
    let mut ql = lo;
    let mut round_bit = false;
    let mut sticky = false;
    let mut j: u32 = 0;
    proof {
        assert(pow2(0) == 1) by {
            lemma_pow2_unfold(1);
            vstd::arithmetic::power2::lemma2_to64();
        }
    }
    while j < sh
        invariant
            j <= sh <= 256,
            m == wide(hi, lo),
            wide(qh, ql) == m / pow2(j as nat),
            j == 0 ==> (!round_bit && !sticky),
            j > 0 ==> (round_bit <==> (m / pow2((j - 1) as nat)) % 2 == 1),
            j > 0 ==> (sticky <==> m % pow2((j - 1) as nat) != 0),
        decreases sh - j,
    {
        proof {
            lemma_wide_split(qh, ql);
            lemma_pow2_step(m, j as nat);
            if j > 0 {
                lemma_pow2_step(m, (j - 1) as nat);
                lemma_pow2_pos((j - 1) as nat);
                assert(m % pow2(j as nat) != 0 <==> (sticky || round_bit)) by (nonlinear_arith)
                    requires
                        m % pow2(j as nat) == m % pow2((j - 1) as nat) + ((m / pow2(
                            (j - 1) as nat,
                        )) % 2) * pow2((j - 1) as nat),
                        pow2((j - 1) as nat) > 0,
                        round_bit <==> (m / pow2((j - 1) as nat)) % 2 == 1,
                        sticky <==> m % pow2((j - 1) as nat) != 0,
                        m % pow2((j - 1) as nat) >= 0,
                ;
            } else {
                vstd::arithmetic::power2::lemma2_to64();
                assert(m % pow2(0) == 0);
            }
        }
        sticky = sticky || round_bit;
        round_bit = ql % 2 == 1;
        let (h2, l2) = halve(qh, ql);
        qh = h2;
        ql = l2;
        j = j + 1;
    }
    proof {
        let s = sh as nat;
        let t = (s - 1) as nat;
        lemma_pow2_step(m, t);
        lemma_pow2_pos(t);
        let rem = m % pow2(s);
        assert(rem > pow2(t) <==> (round_bit && sticky)) by (nonlinear_arith)
            requires
                rem == m % pow2(t) + ((m / pow2(t)) % 2) * pow2(t),
                m % pow2(t) < pow2(t),
                m % pow2(t) >= 0,
                round_bit <==> (m / pow2(t)) % 2 == 1,
                sticky <==> m % pow2(t) != 0,
        ;
        assert(rem == pow2(t) <==> (round_bit && !sticky)) by (nonlinear_arith)
            requires
                rem == m % pow2(t) + ((m / pow2(t)) % 2) * pow2(t),
                m % pow2(t) < pow2(t),
                m % pow2(t) >= 0,
                round_bit <==> (m / pow2(t)) % 2 == 1,
                sticky <==> m % pow2(t) != 0,
        ;
        lemma_wide_split(qh, ql);
        lemma_pow2_unfold(s);
        assert(m / pow2(s) <= m / 2) by {
            vstd::arithmetic::div_mod::lemma_div_is_ordered_by_denominator(m as int, 2, pow2(s) as int);
        }
        assert((m / pow2(shift as nat)) % 2 == ql % 2);
    }
    let raised = match witness {
        Ordering::Greater => true,
        _ => false,
    };
    if round_bit && (sticky || (!raised && ql % 2 == 1)) {
        increment(qh, ql)
    } else {
        (qh, ql)
    }
}

/// Reducing keeps what `strip_zeros` yields, one halving at a time.
proof fn lemma_strip_step(m: nat, e: int)
    requires
        m > 0,
        m % 2 == 0,
    ensures
        strip_zeros(m, e) == strip_zeros(m / 2, e + 1),
{
}

impl ExtendedValue {
    /// The triple `(sign, exponent, (high, low))` that the target format
    /// stores for this value; with `reduce` the significand is first made
    /// odd. See `decoded`.
    pub fn decode(&self, reduce: bool) -> (r: (u32, i32, (u128, u128)))
        ensures
            r == decoded(*self, reduce),
    {
        let s: u32 = if self.negative {
            1
        } else {
            0
        };
        if self.exp > EMAX - PM1 {
            return (s, EMAX + 1, (0, 0));
        }
        let mut hi = self.hi;
        let mut lo = self.lo;
        let mut e: i32 = self.exp;
        proof {
            vstd::arithmetic::power2::lemma2_to64();
            assert(wide(hi, lo) * pow2(0) == self.mantissa());
        }
        if reduce {
            while (hi != 0 || lo != 0) && lo % 2 == 0
                invariant
                    self.exp <= e,
                    self.exp <= EMAX - PM1,
                    wide(hi, lo) * pow2((e - self.exp) as nat) == self.mantissa(),
                    strip_zeros(wide(hi, lo), e as int) == strip_zeros(
                        self.mantissa(),
                        self.exp as int,
                    ),
                decreases wide(hi, lo),
            {
                let ghost d = (e - self.exp) as nat;
                proof {
                    lemma_wide_split(hi, lo);
                    lemma_wide_split(self.hi, self.lo);
                    lemma_pow2_pos(d);
                    assert(pow2(d) <= self.mantissa()) by (nonlinear_arith)
                        requires
                            wide(hi, lo) * pow2(d) == self.mantissa(),
                            wide(hi, lo) >= 1,
                    ;
                    if d >= 256 {
                        if d > 256 {
                            lemma_pow2_strictly_increases(256, d);
                        }
                        assert(false);
                    }
                    lemma_strip_step(wide(hi, lo), e as int);
                }
                let (h2, l2) = halve(hi, lo);
                proof {
                    lemma_pow2_step(0, d);
                    assert(wide(h2, l2) * pow2(d + 1) == self.mantissa()) by (nonlinear_arith)
                        requires
                            wide(hi, lo) * pow2(d) == self.mantissa(),
                            wide(h2, l2) == wide(hi, lo) / 2,
                            wide(hi, lo) % 2 == 0,
                            pow2(d + 1) == 2 * pow2(d),
                    ;
                }
                hi = h2;
                lo = l2;
                e = e + 1;
            }
            proof {
                lemma_wide_split(hi, lo);
            }
        }
        if e < MIN_EXP_SUBNORMAL {
            let shift: i64 = MIN_EXP_SUBNORMAL as i64 - e as i64;
            let (qh, ql) = round_shifted(hi, lo, shift, self.witness);
            proof {
                lemma_wide_split(qh, ql);
            }
            if qh == 0 && ql == 0 {
                (s, 0, (0, 0))
            } else {
                (s, MIN_EXP_SUBNORMAL, (qh, ql))
            }
        } else {
            proof {
                lemma_wide_split(hi, lo);
            }
            if hi == 0 && lo == 0 {
                (s, 0, (0, 0))
            } else {
                (s, e, (hi, lo))
            }
        }
    }
}

/// What stripping trailing zeros keeps: the value, a significand that is odd
/// or zero, and an exponent that only grows.
pub proof fn lemma_strip_zeros(m: nat, e: int)
    ensures
        strip_zeros(m, e).1 >= e,
        strip_zeros(m, e).0 * pow2((strip_zeros(m, e).1 - e) as nat) == m,
        strip_zeros(m, e).0 == 0 <==> m == 0,
        strip_zeros(m, e).0 <= m,
        m > 0 ==> strip_zeros(m, e).0 % 2 == 1,
    decreases m,
{
    vstd::arithmetic::power2::lemma2_to64();
    if m > 0 && m % 2 == 0 {
        lemma_strip_zeros(m / 2, e + 1);
        let (m2, e2) = strip_zeros(m / 2, e + 1);
        let k = (e2 - (e + 1)) as nat;
        lemma_pow2_unfold(k + 1);
        assert((k + 1) as nat == (e2 - e) as nat);
        assert(pow2((e2 - e) as nat) == pow2(k) * 2);
        assert(m2 * pow2((e2 - e) as nat) == m) by (nonlinear_arith)
            requires
                m2 * pow2(k) == m / 2,
                pow2((e2 - e) as nat) == pow2(k) * 2,
                m % 2 == 0,
        ;
        lemma_pow2_pos(k);
        assert(m2 <= m) by (nonlinear_arith)
            requires
                m2 * pow2(k) == m / 2,
                pow2(k) >= 1,
        ;
    } else {
        assert((strip_zeros(m, e).1 - e) as nat == 0);
        assert(m * pow2(0) == m);
    }
}

/// Rounding onto the grid never reaches beyond half the significand plus one.
proof fn lemma_round_bound(m: nat, shift: nat, witness: Ordering)
    requires
        shift >= 1,
    ensures
        round_to_quantum(m, shift, witness) <= m / 2 + 1,
{
    lemma_pow2_unfold(shift);
    lemma_pow2_pos((shift - 1) as nat);
    vstd::arithmetic::div_mod::lemma_div_is_ordered_by_denominator(m as int, 2, pow2(shift) as int);
}

/// Rounding onto the grid does not depend on trailing zeros: `m * 2^d`
/// shifted by `shift` rounds as `m` shifted by `shift - d`.
proof fn lemma_round_scaled(m: nat, d: nat, shift: nat, witness: Ordering)
    requires
        shift >= d + 1,
    ensures
        round_to_quantum(m * pow2(d), shift, witness) == round_to_quantum(
            m,
            (shift - d) as nat,
            witness,
        ),
{
    let s2 = (shift - d) as nat;
    let x = m * pow2(d);
    lemma_pow2_pos(d);
    lemma_pow2_pos(s2);
    lemma_pow2_pos((s2 - 1) as nat);
    lemma_pow2_adds(d, s2);
    lemma_pow2_adds(d, (s2 - 1) as nat);
    assert(d + s2 == shift);
    assert((d + (s2 - 1) as nat) as nat == (shift - 1) as nat);
    vstd::arithmetic::div_mod::lemma_div_multiples_vanish(m as int, pow2(d) as int);
    assert(x / pow2(d) == m) by {
        vstd::arithmetic::mul::lemma_mul_is_commutative(m as int, pow2(d) as int);
    }
    lemma_div_denominator(x as int, pow2(d) as int, pow2(s2) as int);
    lemma_mod_breakdown(x as int, pow2(d) as int, pow2(s2) as int);
    vstd::arithmetic::div_mod::lemma_mod_multiples_basic(m as int, pow2(d) as int);
    let rem = x % pow2(shift);
    let rem2 = m % pow2(s2);
    assert(rem == pow2(d) * rem2);
    assert(pow2((shift - 1) as nat) == pow2(d) * pow2((s2 - 1) as nat));
    assert(rem > pow2((shift - 1) as nat) <==> rem2 > pow2((s2 - 1) as nat)) by (nonlinear_arith)
        requires
            rem == pow2(d) * rem2,
            pow2((shift - 1) as nat) == pow2(d) * pow2((s2 - 1) as nat),
            pow2(d) > 0,
    ;
    assert(rem == pow2((shift - 1) as nat) <==> rem2 == pow2((s2 - 1) as nat)) by (nonlinear_arith)
        requires
            rem == pow2(d) * rem2,
            pow2((shift - 1) as nat) == pow2(d) * pow2((s2 - 1) as nat),
            pow2(d) > 0,
    ;
}

/// Below the subnormal quantum the shortest significand rounds as the full
/// one: where the stripped exponent still lies below the quantum, decoding
/// with and without reducing agree.
pub proof fn lemma_reduce_below_grid(v: ExtendedValue)
    requires
        v.exp <= EMAX - PM1,
        strip_zeros(v.mantissa(), v.exp as int).1 < MIN_EXP_SUBNORMAL,
    ensures
        decoded(v, true) == decoded(v, false),
{
    lemma_strip_zeros(v.mantissa(), v.exp as int);
    let (m2, e2) = strip_zeros(v.mantissa(), v.exp as int);
    let d = (e2 - v.exp) as nat;
    lemma_round_scaled(m2, d, (MIN_EXP_SUBNORMAL - v.exp) as nat, v.witness);
    assert((MIN_EXP_SUBNORMAL - v.exp - d) as nat == (MIN_EXP_SUBNORMAL - e2) as nat);
}

/// A tie between two neighbours on the subnormal grid keeps its exponent
/// below the quantum when its trailing zeros are stripped.
proof fn lemma_tie_stays_below(v: ExtendedValue, q: nat)
    requires
        v.exp < MIN_EXP_SUBNORMAL,
        v.mantissa() == (2 * q + 1) * pow2((MIN_EXP_SUBNORMAL - v.exp - 1) as nat),
    ensures
        strip_zeros(v.mantissa(), v.exp as int).1 < MIN_EXP_SUBNORMAL,
{
    let sh = (MIN_EXP_SUBNORMAL - v.exp) as nat;
    lemma_tie_quotient(v.mantissa(), sh, q);
    lemma_strip_zeros(v.mantissa(), v.exp as int);
    let (m2, e2) = strip_zeros(v.mantissa(), v.exp as int);
    let d = (e2 - v.exp) as nat;
    if d >= sh {
        let k = (d - sh) as nat;
        lemma_pow2_adds(k, sh);
        assert(k + sh == d);
        lemma_pow2_pos(sh);
        lemma_pow2_pos((sh - 1) as nat);
        assert(v.mantissa() == (m2 * pow2(k)) * pow2(sh)) by (nonlinear_arith)
            requires
                v.mantissa() == m2 * pow2(d),
                pow2(d) == pow2(k) * pow2(sh),
        ;
        vstd::arithmetic::div_mod::lemma_mod_multiples_basic((m2 * pow2(k)) as int, pow2(sh) as int);
    }
}

/// A value exactly halfway between two neighbours on the subnormal grid,
/// whose witness is `Less` or `Equal`, is encoded as the neighbour with an
/// even significand.
pub proof fn lemma_subnormal_tie_to_even(v: ExtendedValue, q: nat)
    requires
        v.exp < MIN_EXP_SUBNORMAL,
        v.witness != Ordering::Greater,
        v.mantissa() == (2 * q + 1) * pow2((MIN_EXP_SUBNORMAL - v.exp - 1) as nat),
    ensures
        decoded(v, false) == encode(
            v.sign_bit(),
            if q % 2 == 0 {
                q
            } else {
                q + 1
            },
            MIN_EXP_SUBNORMAL as int,
        ),
        decoded(v, true) == decoded(v, false),
{
    lemma_tie_quotient(v.mantissa(), (MIN_EXP_SUBNORMAL - v.exp) as nat, q);
    lemma_tie_stays_below(v, q);
    lemma_reduce_below_grid(v);
}

/// A value exactly halfway between two neighbours on the subnormal grid that
/// was already rounded up (witness `Greater`) is not rounded up a second
/// time: it is encoded as the lower neighbour.
pub proof fn lemma_subnormal_tie_not_raised(v: ExtendedValue, q: nat)
    requires
        v.exp < MIN_EXP_SUBNORMAL,
        v.witness == Ordering::Greater,
        v.mantissa() == (2 * q + 1) * pow2((MIN_EXP_SUBNORMAL - v.exp - 1) as nat),
    ensures
        decoded(v, false) == encode(v.sign_bit(), q, MIN_EXP_SUBNORMAL as int),
        decoded(v, true) == decoded(v, false),
{
    lemma_tie_quotient(v.mantissa(), (MIN_EXP_SUBNORMAL - v.exp) as nat, q);
    lemma_tie_stays_below(v, q);
    lemma_reduce_below_grid(v);
}

/// Quotient and remainder of a tie.
proof fn lemma_tie_quotient(m: nat, shift: nat, q: nat)
    requires
        shift >= 1,
        m == (2 * q + 1) * pow2((shift - 1) as nat),
    ensures
        m / pow2(shift) == q,
        m % pow2(shift) == pow2((shift - 1) as nat),
{
    let t = (shift - 1) as nat;
    lemma_pow2_unfold(shift);
    lemma_pow2_pos(t);
    assert(m == q * pow2(shift) + pow2(t)) by (nonlinear_arith)
        requires
            m == (2 * q + 1) * pow2(t),
            pow2(shift) == 2 * pow2(t),
    ;
    vstd::arithmetic::div_mod::lemma_fundamental_div_mod_converse(
        m as int,
        pow2(shift) as int,
        q as int,
        pow2(t) as int,
    );
}

/// The sign bit is always kept, and a triple whose significand is zero is,
/// short of the overflow sentinel, the zero triple `(sign, 0, (0, 0))`.
pub proof fn lemma_zero_collapse(v: ExtendedValue, reduce: bool)
    ensures
        decoded(v, reduce).0 == v.sign_bit(),
        decoded(v, reduce).2 == (0u128, 0u128) && decoded(v, reduce).1 != EMAX + 1 ==> decoded(
            v,
            reduce,
        ) == (v.sign_bit(), 0i32, (0u128, 0u128)),
        v.mantissa() == 0 && v.exp <= EMAX - PM1 ==> decoded(v, reduce) == (
            v.sign_bit(),
            0i32,
            (0u128, 0u128),
        ),
{
    lemma_wide_split(v.hi, v.lo);
    lemma_word_powers();
    lemma_strip_zeros(v.mantissa(), v.exp as int);
    let (m, e) = if reduce {
        strip_zeros(v.mantissa(), v.exp as int)
    } else {
        (v.mantissa(), v.exp as int)
    };
    assert(m < pow2(256));
    if e < MIN_EXP_SUBNORMAL {
        let sh = (MIN_EXP_SUBNORMAL - e) as nat;
        lemma_round_bound(m, sh, v.witness);
        if m == 0 {
            assert(round_to_quantum(m, sh, v.witness) == 0) by {
                lemma_pow2_pos(sh);
                lemma_pow2_pos((sh - 1) as nat);
            }
        }
        lemma_encode_zero(v.sign_bit(), round_to_quantum(m, sh, v.witness), MIN_EXP_SUBNORMAL as int);
    } else {
        lemma_encode_zero(v.sign_bit(), m, e);
    }
}

/// `encode` gives a zero significand only for a zero input.
proof fn lemma_encode_zero(sign: u32, m: nat, e: int)
    requires
        m < pow2(256),
    ensures
        encode(sign, m, e).2 == (0u128, 0u128) ==> m == 0,
{
    lemma_word_powers();
    if m > 0 {
        assert(m / pow2(128) < pow2(128)) by (nonlinear_arith)
            requires
                m < pow2(128) * pow2(128),
                pow2(128) > 0,
        ;
        assert(m == pow2(128) * (m / pow2(128)) + m % pow2(128)) by (nonlinear_arith)
            requires
                pow2(128) > 0,
        ;
    }
}

/// At full precision (a significand of exactly `P` bits) a value decodes to
/// the overflow sentinel exactly when the exponent of its leading bit exceeds
/// `EMAX`; at a leading exponent of `EMAX` it is encoded as it stands.
pub proof fn lemma_overflow_boundary(v: ExtendedValue, reduce: bool)
    requires
        pow2(236) <= v.mantissa() < pow2(237),
    ensures
        decoded(v, reduce).1 == EMAX + 1 <==> v.exp + PM1 > EMAX,
        v.exp + PM1 > EMAX ==> decoded(v, reduce) == (v.sign_bit(), (EMAX + 1) as i32, (0u128, 0u128)),
        v.exp + PM1 == EMAX ==> decoded(v, false) == (v.sign_bit(), v.exp, (v.hi, v.lo)),
{
    lemma_wide_split(v.hi, v.lo);
    lemma_word_powers();
    lemma_pow2_pos(236);
    if v.exp + PM1 <= EMAX {
        lemma_strip_zeros(v.mantissa(), v.exp as int);
        let (m, e) = strip_zeros(v.mantissa(), v.exp as int);
        let k = (e - v.exp) as nat;
        lemma_pow2_pos(k);
        assert(pow2(k) <= v.mantissa()) by (nonlinear_arith)
            requires
                m * pow2(k) == v.mantissa(),
                m >= 1,
        ;
        if k >= 237 {
            if k > 237 {
                lemma_pow2_strictly_increases(237, k);
            }
            assert(false);
        }
    }
}

} // verus!
