//! Random decimal literals, the input of conversion tests.
use crate::draw::{draw, range_end, range_start};
use core::ops::RangeInclusive;
use rand::rngs::StdRng;
use vstd::prelude::*;

verus! {

/// Largest decimal exponent of the target format.
pub const E10MAX: i32 = 78913;

/// Smallest decimal exponent of the target format.
pub const E10MIN: i32 = 1 - E10MAX;

/// Most significant digits of a literal in the general case.
pub const MAX_N_DIGITS: u32 = 77;

/// Most significant digits of a literal that converts fast and exactly.
pub const FAST_EXACT_MAX_N_DIGITS: u32 = 71;

/// Most significant digits of a literal that converts slowly.
pub const SLOW_MAX_N_DIGITS: u32 = 80;

/// Most significant digits of a literal over the whole exponent range.
pub const EXTREME_MAX_N_DIGITS: u32 = 183470;

/// The character of the decimal digit `d`.
pub open spec fn digit_char(d: u8) -> char {
    if d == 0 {
        '0'
    } else if d == 1 {
        '1'
    } else if d == 2 {
        '2'
    } else if d == 3 {
        '3'
    } else if d == 4 {
        '4'
    } else if d == 5 {
        '5'
    } else if d == 6 {
        '6'
    } else if d == 7 {
        '7'
    } else if d == 8 {
        '8'
    } else {
        '9'
    }
}

/// The characters of a sequence of decimal digits.
pub open spec fn digits_text(ds: Seq<u8>) -> Seq<char>
    decreases ds.len(),
{
    if ds.len() == 0 {
        Seq::empty()
    } else {
        digits_text(ds.drop_last()).push(digit_char(ds.last()))
    }
}

/// The decimal numeral of `n`.
pub open spec fn nat_text(n: nat) -> Seq<char>
    decreases n,
{
    if n < 10 {
        seq![digit_char(n as u8)]
    } else {
        nat_text(n / 10).push(digit_char((n % 10) as u8))
    }
}

/// The decimal numeral of `i`, with a minus sign when negative.
pub open spec fn int_text(i: int) -> Seq<char> {
    if i < 0 {
        seq!['-'] + nat_text((-i) as nat)
    } else {
        nat_text(i as nat)
    }
}

/// The sign of a literal: `+` for choice 0, `-` for choice 1, none else.
pub open spec fn sign_text(choice: u32) -> Seq<char> {
    if choice == 0 {
        seq!['+']
    } else if choice == 1 {
        seq!['-']
    } else {
        Seq::empty()
    }
}

/// All digits are zero.
pub open spec fn all_zero(ds: Seq<u8>) -> bool {
    forall|i: int| 0 <= i < ds.len() ==> ds[i] == 0
}

/// The fraction digits, with a 7 appended where no digit at all is
/// significant.
pub open spec fn fraction_of(int_digits: Seq<u8>, fract_digits: Seq<u8>) -> Seq<u8> {
    if all_zero(int_digits) && all_zero(fract_digits) {
        fract_digits.push(7)
    } else {
        fract_digits
    }
}

/// The literal `sign int.fract` followed by `e` and its exponent, which is
/// `drawn_exp` plus the number of fraction digits; without exponent where
/// that is 0, and with fraction `0` where there is none.
pub open spec fn literal_text(
    sign: u32,
    int_digits: Seq<u8>,
    fract_digits: Seq<u8>,
    drawn_exp: int,
) -> Seq<char> {
    let fract = fraction_of(int_digits, fract_digits);
    let exp = drawn_exp + fract.len();
    let head = sign_text(sign) + digits_text(int_digits) + seq!['.'];
    if exp == 0 {
        head + digits_text(fract)
    } else if fract.len() == 0 {
        head + seq!['0', 'e'] + int_text(exp)
    } else {
        head + digits_text(fract) + seq!['e'] + int_text(exp)
    }
}

/// The most digits of a literal drawn for the exponent range from `start`
/// to `end`.
pub open spec fn max_digits_spec(start: i32, end: i32) -> u32 {
    if start == -102 && end == 102 {
        FAST_EXACT_MAX_N_DIGITS
    } else if start == -512 && end == 512 {
        MAX_N_DIGITS
    } else if start == E10MIN && end == E10MAX {
        EXTREME_MAX_N_DIGITS
    } else {
        SLOW_MAX_N_DIGITS
    }
}

/// Relies on `String::push`: appends the character.
#[verifier::external_body]
pub(crate) fn push_char(s: &mut String, c: char)
    ensures
        final(s)@ == old(s)@.push(c),
{
    s.push(c)
}

/// The character of the decimal digit `d`.
fn digit(d: u8) -> (c: char)
    requires
        d <= 9,
    ensures
        c == digit_char(d),
{
    if d == 0 {
        '0'
    } else if d == 1 {
        '1'
    } else if d == 2 {
        '2'
    } else if d == 3 {
        '3'
    } else if d == 4 {
        '4'
    } else if d == 5 {
        '5'
    } else if d == 6 {
        '6'
    } else if d == 7 {
        '7'
    } else if d == 8 {
        '8'
    } else {
        '9'
    }
}

/// Appends the decimal numeral of `n`.
fn push_nat(s: &mut String, n: u64)
    ensures
        final(s)@ == old(s)@ + nat_text(n as nat),
    decreases n,
{
    if n >= 10 {
        push_nat(s, n / 10);
    }
    push_char(s, digit((n % 10) as u8));
    proof {
        if n >= 10 {
            assert(final(s)@ == old(s)@ + nat_text(n as nat));
        } else {
            assert(nat_text(n as nat) == seq![digit_char(n as u8)]);
        }
    }
}

/// Appends the digits, and tells whether one of them is not zero.
fn push_digits(s: &mut String, ds: &Vec<u8>) -> (significant: bool)
    requires
        forall|i: int| 0 <= i < ds.len() ==> ds[i] <= 9,
    ensures
        final(s)@ == old(s)@ + digits_text(ds@),
        significant == !all_zero(ds@),
{
    let ghost start = s@;
    let mut significant = false;
    let mut i: usize = 0;
    while i < ds.len()
        invariant
            i <= ds.len(),
            forall|k: int| 0 <= k < ds.len() ==> ds[k] <= 9,
            s@ == start + digits_text(ds@.take(i as int)),
            significant == !all_zero(ds@.take(i as int)),
        decreases ds.len() - i,
    {
        push_char(s, digit(ds[i]));
        if ds[i] != 0 {
            significant = true;
        }
        i = i + 1;
        proof {
            let t = ds@.take(i as int);
            assert(t.drop_last() == ds@.take(i - 1));
            assert(all_zero(t) <==> all_zero(t.drop_last()) && t.last() == 0) by {
                if all_zero(t.drop_last()) && t.last() == 0 {
                    assert forall|k: int| 0 <= k < t.len() implies t[k] == 0 by {
                        if k < t.len() - 1 {
                            assert(t[k] == t.drop_last()[k]);
                        }
                    }
                }
                if all_zero(t) {
                    assert forall|k: int| 0 <= k < t.drop_last().len() implies t.drop_last()[k]
                        == 0 by {
                        assert(t.drop_last()[k] == t[k]);
                    }
                }
            }
        }
    }
    assert(ds@.take(ds.len() as int) == ds@);
    significant
}

/// The literal that `literal_text` describes.
pub fn number_literal(sign: u32, int_digits: &Vec<u8>, fract_digits: &Vec<u8>, drawn_exp: i32) -> (r:
    String)
    requires
        forall|i: int| 0 <= i < int_digits.len() ==> int_digits[i] <= 9,
        forall|i: int| 0 <= i < fract_digits.len() ==> fract_digits[i] <= 9,
        fract_digits.len() < u32::MAX,
    ensures
        r@ == literal_text(sign, int_digits@, fract_digits@, drawn_exp as int),
{
    let mut s = String::new();
    if sign == 0 {
        push_char(&mut s, '+');
    } else if sign == 1 {
        push_char(&mut s, '-');
    }
    let int_significant = push_digits(&mut s, int_digits);
    push_char(&mut s, '.');
    let fract_significant = push_digits(&mut s, fract_digits);
    let mut n_fract: u64 = fract_digits.len() as u64;
    if !int_significant && !fract_significant {
        push_char(&mut s, '7');
        n_fract = n_fract + 1;
        proof {
            let f = fract_digits@.push(7);
            assert(f.drop_last() == fract_digits@);
        }
    }
    let exp: i64 = drawn_exp as i64 + n_fract as i64;
    if exp != 0 {
        if n_fract == 0 {
            push_char(&mut s, '0');
        }
        push_char(&mut s, 'e');
        if exp < 0 {
            push_char(&mut s, '-');
            push_nat(&mut s, (-exp) as u64);
        } else {
            push_nat(&mut s, exp as u64);
        }
    }
    proof {
        let fract = fraction_of(int_digits@, fract_digits@);
        assert(n_fract == fract.len());
        if n_fract == 0 {
            assert(fract =~= Seq::<u8>::empty());
            assert(digits_text(fract) =~= Seq::<char>::empty());
        }
        assert(s@ =~= literal_text(sign, int_digits@, fract_digits@, drawn_exp as int));
    }
    s
}

/// The most digits of a literal drawn for the exponent range from `start`
/// to `end`.
pub fn max_digits(start: i32, end: i32) -> (r: u32)
    ensures
        r == max_digits_spec(start, end),
{
    if start == -102 && end == 102 {
        FAST_EXACT_MAX_N_DIGITS
    } else if start == -512 && end == 512 {
        MAX_N_DIGITS
    } else if start == E10MIN && end == E10MAX {
        EXTREME_MAX_N_DIGITS
    } else {
        SLOW_MAX_N_DIGITS
    }
}

/// `n` random decimal digits.
fn draw_digits(rng: &mut StdRng, n: u32) -> (r: Vec<u8>)
    ensures
        r.len() == n,
        forall|i: int| 0 <= i < r.len() ==> r[i] <= 9,
{
    let mut r: Vec<u8> = Vec::new();
    let mut i: u32 = 0;
    while i < n
        invariant
            i <= n,
            r.len() == i,
            forall|k: int| 0 <= k < r.len() ==> r[k] <= 9,
        decreases n - i,
    {
        let d = draw(rng, 0, 9) as u8;
        r.push(d);
        i = i + 1;
    }
    r
}

/// A random decimal literal: a sign (`+`, `-` or none, uniformly), between
/// one and `max_digits` digits of which at least one stands before the
/// point, and an exponent drawn from `exp_range` and raised by the number of
/// fraction digits; a literal whose digits are all zero gets a fraction
/// digit 7 appended.
pub fn gen_number_str(rng: &mut StdRng, exp_range: &RangeInclusive<i32>) -> (r: String)
    requires
        exp_range@.start <= exp_range@.end,
    ensures
        exists|sign: u32, int_digits: Seq<u8>, fract_digits: Seq<u8>, e: int|
            #![trigger literal_text(sign, int_digits, fract_digits, e)]
            {
                &&& sign <= 2
                &&& 1 <= int_digits.len()
                &&& int_digits.len() + fract_digits.len() <= max_digits_spec(
                    exp_range@.start,
                    exp_range@.end,
                )
                &&& forall|i: int| 0 <= i < int_digits.len() ==> int_digits[i] <= 9
                &&& forall|i: int| 0 <= i < fract_digits.len() ==> fract_digits[i] <= 9
                &&& exp_range@.start <= e <= exp_range@.end
                &&& r@ == literal_text(sign, int_digits, fract_digits, e)
            },
{
    let start = range_start(exp_range);
    let end = range_end(exp_range);
    let sign = draw(rng, 0, 2) as u32;
    let max_n_digits = max_digits(start, end);
    let n_digits = draw(rng, 1, max_n_digits as u128) as u32;
    let n_fract_digits = draw(rng, 0, (n_digits - 1) as u128) as u32;
    let n_int_digits = n_digits - n_fract_digits;
    let int_digits = draw_digits(rng, n_int_digits);
    let fract_digits = draw_digits(rng, n_fract_digits);
    let offset = draw(rng, 0, (end as i64 - start as i64) as u128);
    let drawn_exp: i32 = (start as i64 + offset as i64) as i32;
    number_literal(sign, &int_digits, &fract_digits, drawn_exp)
}

} // verus!
