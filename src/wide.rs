//! Unsigned 256-bit integers held as a pair of `u128` words.
use vstd::arithmetic::div_mod::{lemma_fundamental_div_mod, lemma_fundamental_div_mod_converse};
use vstd::arithmetic::power2::{lemma2_to64, lemma2_to64_rest, lemma_pow2_adds, pow2};
use vstd::prelude::*;

verus! {

/// The number `hi * 2^128 + lo`.
pub open spec fn wide(hi: u128, lo: u128) -> nat {
    hi as nat * pow2(128) + lo as nat
}

/// The values of the powers of two that the word arithmetic below relies on.
pub proof fn lemma_word_powers()
    ensures
        pow2(64) == 0x1_0000_0000_0000_0000,
        pow2(127) == 0x8000_0000_0000_0000_0000_0000_0000_0000,
        pow2(128) == 0x1_0000_0000_0000_0000_0000_0000_0000_0000,
        pow2(256) == pow2(128) * pow2(128),
        pow2(255) == pow2(127) * pow2(128),
{
    lemma2_to64();
    lemma2_to64_rest();
    lemma_pow2_adds(63, 64);
    lemma_pow2_adds(64, 64);
    lemma_pow2_adds(128, 128);
    lemma_pow2_adds(127, 128);
}

/// A pair of words splits its value into quotient and remainder by `2^128`.
pub proof fn lemma_wide_split(hi: u128, lo: u128)
    ensures
        wide(hi, lo) / pow2(128) == hi,
        wide(hi, lo) % pow2(128) == lo,
        wide(hi, lo) < pow2(256),
        wide(hi, lo) % 2 == lo % 2,
        wide(hi, lo) == 0 <==> (hi == 0 && lo == 0),
{
    lemma_word_powers();
    lemma_fundamental_div_mod_converse(
        wide(hi, lo) as int,
        pow2(128) as int,
        hi as int,
        lo as int,
    );
    assert((hi as nat) * pow2(128) + (lo as nat) < pow2(128) * pow2(128)) by (nonlinear_arith)
        requires
            hi < pow2(128),
            lo < pow2(128),
    ;
    let h2 = hi as int * 0x8000_0000_0000_0000_0000_0000_0000_0000int;
    assert(hi as int * pow2(128) == 2 * h2) by (nonlinear_arith)
        requires
            pow2(128) == 0x1_0000_0000_0000_0000_0000_0000_0000_0000,
            h2 == hi as int * 0x8000_0000_0000_0000_0000_0000_0000_0000int,
    ;
    lemma_fundamental_div_mod_converse(wide(hi, lo) as int, 2, h2 + lo as int / 2, lo as int % 2);
}

/// Halves a 256-bit value, rounding down.
pub fn halve(hi: u128, lo: u128) -> (r: (u128, u128))
    ensures
        wide(r.0, r.1) == wide(hi, lo) / 2,
{
    let carry: u128 = if hi % 2 == 1 {
        0x8000_0000_0000_0000_0000_0000_0000_0000
    } else {
        0
    };
    let r = (hi / 2, lo / 2 + carry);
    proof {
        lemma_word_powers();
        let h = hi as int;
        let l = lo as int;
        assert(h * pow2(128) == (h / 2) * pow2(128) * 2 + (h % 2) * pow2(127) * 2)
            by (nonlinear_arith)
            requires
                pow2(128) == 2 * pow2(127),
                h == 2 * (h / 2) + h % 2,
        ;
        assert(wide(hi, lo) == 2 * wide(r.0, r.1) + l % 2);
        lemma_fundamental_div_mod_converse(wide(hi, lo) as int, 2, wide(r.0, r.1) as int, l % 2);
    }
    r
}

/// Adds one to a 256-bit value that stays below `2^256`.
pub fn increment(hi: u128, lo: u128) -> (r: (u128, u128))
    requires
        wide(hi, lo) + 1 < pow2(256),
    ensures
        wide(r.0, r.1) == wide(hi, lo) + 1,
{
    proof {
        lemma_word_powers();
    }
    if lo == u128::MAX {
        if hi == u128::MAX {
            proof {
                assert(wide(hi, lo) + 1 == pow2(256)) by (nonlinear_arith)
                    requires
                        hi == pow2(128) - 1,
                        lo == pow2(128) - 1,
                        wide(hi, lo) == hi as nat * pow2(128) + lo as nat,
                        pow2(256) == pow2(128) * pow2(128),
                ;
            }
        }
        let r = (hi + 1, 0);
        assert(wide(r.0, r.1) == wide(hi, lo) + 1) by (nonlinear_arith)
            requires
                lo + 1 == pow2(128),
                wide(r.0, r.1) == r.0 as nat * pow2(128) + r.1 as nat,
                wide(hi, lo) == hi as nat * pow2(128) + lo as nat,
                r.0 == hi + 1,
                r.1 == 0,
        ;
        r
    } else {
        (hi, lo + 1)
    }
}

/// Splitting a value below `2^256` into words and joining them gives it back.
pub proof fn lemma_wide_join(m: nat)
    requires
        m < pow2(256),
    ensures
        wide((m / pow2(128)) as u128, (m % pow2(128)) as u128) == m,
{
    lemma_word_powers();
    assert(m / pow2(128) < pow2(128)) by (nonlinear_arith)
        requires
            m < pow2(128) * pow2(128),
            pow2(128) > 0,
    ;
    lemma_fundamental_div_mod(m as int, pow2(128) as int);
}

} // verus!
