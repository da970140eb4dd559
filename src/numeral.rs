//! Decimal numerals of integers, and their rounding to the digits that the
//! target format can tell apart.
use crate::literal::{digit_char, int_text, nat_text, push_char};
use vstd::prelude::*;
use vstd::string::StringSliceAdditionalSpecFns;

verus! {

/// Most characters of an integer numeral that are kept as they stand.
pub const MAX_NUMERAL_LEN: usize = 72;

/// `10^k`.
pub open spec fn pow10(k: nat) -> nat
    decreases k,
{
    if k == 0 {
        1
    } else {
        10 * pow10((k - 1) as nat)
    }
}

/// An ASCII decimal digit.
pub open spec fn is_digit_byte(c: u8) -> bool {
    48 <= c <= 57
}

/// The character of an ASCII decimal digit.
pub open spec fn byte_char(c: u8) -> char {
    digit_char((c - 48) as u8)
}

/// The characters of a sequence of ASCII bytes that are digits.
pub open spec fn bytes_text(ds: Seq<u8>) -> Seq<char>
    decreases ds.len(),
{
    if ds.len() == 0 {
        Seq::empty()
    } else {
        bytes_text(ds.drop_last()).push(byte_char(ds.last()))
    }
}

/// The number that a sequence of ASCII digits denotes.
pub open spec fn digits_value(ds: Seq<u8>) -> nat
    decreases ds.len(),
{
    if ds.len() == 0 {
        0
    } else {
        digits_value(ds.drop_last()) * 10 + (ds.last() - 48) as nat
    }
}

/// All bytes are ASCII digits.
pub open spec fn all_digits(ds: Seq<u8>) -> bool {
    forall|i: int| 0 <= i < ds.len() ==> is_digit_byte(#[trigger] ds[i])
}

/// Digits without a leading zero, or the single digit zero.
pub open spec fn canonical_digits(ds: Seq<u8>) -> bool {
    &&& ds.len() >= 1
    &&& all_digits(ds)
    &&& (ds[0] != 48 || ds.len() == 1)
}

/// The numeral of an integer, as its decimal representation writes it: a
/// minus sign before the digits of a negative number.
pub open spec fn is_integer_text(b: Seq<u8>) -> bool {
    canonical_digits(b) || (b.len() >= 2 && b[0] == 45 && b[1] != 48 && canonical_digits(
        b.drop_first(),
    ))
}

/// The integer that a numeral denotes.
pub open spec fn text_value(b: Seq<u8>) -> int {
    if b.len() > 0 && b[0] == 45 {
        -digits_value(b.drop_first())
    } else {
        digits_value(b) as int
    }
}

/// The integer of a numeral with more than `MAX_NUMERAL_LEN` characters,
/// rounded to that many: divided by the power of ten `d` that drops the
/// excess, truncating, then raised by one where the remainder exceeds `d / 2`,
/// or equals it and the quotient is odd, and scaled back by `d`.
pub open spec fn rounded_value(b: Seq<u8>) -> int {
    let i = text_value(b);
    if b.len() <= MAX_NUMERAL_LEN {
        i
    } else {
        let d = pow10((b.len() - MAX_NUMERAL_LEN) as nat) as int;
        let t = d / 2;
        let q = if i >= 0 {
            i / d
        } else {
            -((-i) / d)
        };
        let r = i - q * d;
        if r > t || (r == t && q % 2 != 0) {
            (q + 1) * d
        } else {
            q * d
        }
    }
}

/// `10^k` is positive, and `10^(k+1)` is ten times it.
pub proof fn lemma_pow10(k: nat)
    ensures
        pow10(k) >= 1,
        pow10(k + 1) == 10 * pow10(k),
    decreases k,
{
    if k > 0 {
        lemma_pow10((k - 1) as nat);
    }
}

/// `10^(a+b) == 10^a * 10^b`.
pub proof fn lemma_pow10_adds(a: nat, b: nat)
    ensures
        pow10(a + b) == pow10(a) * pow10(b),
    decreases b,
{
    if b > 0 {
        lemma_pow10_adds(a, (b - 1) as nat);
        assert((a + b - 1) as nat == a + (b - 1) as nat);
        assert(pow10(a + b) == 10 * pow10((a + b - 1) as nat));
        assert(pow10(a) * pow10(b) == pow10(a) * (10 * pow10((b - 1) as nat)));
        assert(pow10(a) * (10 * pow10((b - 1) as nat)) == 10 * (pow10(a) * pow10((b - 1) as nat)))
            by (nonlinear_arith);
    } else {
        assert(a + b == a);
        assert(pow10(b) == 1);
    }
}

/// The value of digits written one after the other.
pub proof fn lemma_value_concat(a: Seq<u8>, b: Seq<u8>)
    ensures
        digits_value(a + b) == digits_value(a) * pow10(b.len()) + digits_value(b),
    decreases b.len(),
{
    if b.len() == 0 {
        assert(a + b =~= a);
        assert(pow10(0) == 1);
        assert(digits_value(a) * 1 == digits_value(a));
    } else {
        assert((a + b).drop_last() =~= a + b.drop_last());
        assert((a + b).last() == b.last());
        lemma_value_concat(a, b.drop_last());
        lemma_pow10((b.len() - 1) as nat);
        let x = digits_value(a);
        let p = pow10((b.len() - 1) as nat);
        let y = digits_value(b.drop_last());
        assert((x * p + y) * 10 == x * (10 * p) + y * 10) by (nonlinear_arith);
        assert(((b.len() - 1) as nat + 1) as nat == b.len());
        assert(pow10(b.len()) == 10 * p);
        assert(digits_value(a + b) == digits_value((a + b).drop_last()) * 10 + ((a + b).last() - 48) as nat);
        assert(digits_value(b) == y * 10 + (b.last() - 48) as nat);
    }
}

/// Digits denote a number below `10^len`.
pub proof fn lemma_value_bound(a: Seq<u8>)
    requires
        all_digits(a),
    ensures
        digits_value(a) < pow10(a.len()),
    decreases a.len(),
{
    if a.len() > 0 {
        assert(all_digits(a.drop_last())) by {
            assert forall|i: int| 0 <= i < a.drop_last().len() implies is_digit_byte(
                #[trigger] a.drop_last()[i],
            ) by {
                assert(a.drop_last()[i] == a[i]);
            }
        }
        assert(is_digit_byte(a[a.len() - 1]));
        lemma_value_bound(a.drop_last());
        lemma_pow10((a.len() - 1) as nat);
    }
}

/// Digits whose first is not zero denote at least `10^(len-1)`.
pub proof fn lemma_value_lower(a: Seq<u8>)
    requires
        all_digits(a),
        a.len() >= 1,
        a[0] != 48,
    ensures
        digits_value(a) >= pow10((a.len() - 1) as nat),
    decreases a.len(),
{
    if a.len() == 1 {
        assert(a.drop_last() =~= Seq::<u8>::empty());
        assert(is_digit_byte(a[0]));
    } else {
        let s = a.drop_last();
        assert(all_digits(s)) by {
            assert forall|i: int| 0 <= i < s.len() implies is_digit_byte(#[trigger] s[i]) by {
                assert(s[i] == a[i]);
            }
        }
        assert(s[0] == a[0]);
        lemma_value_lower(s);
        lemma_pow10((s.len() - 1) as nat);
        assert(is_digit_byte(a[a.len() - 1]));
    }
}

/// Canonical digits are the decimal numeral of the number they denote.
pub proof fn lemma_numeral(a: Seq<u8>)
    requires
        canonical_digits(a),
    ensures
        nat_text(digits_value(a)) == bytes_text(a),
    decreases a.len(),
{
    assert(is_digit_byte(a[a.len() - 1]));
    if a.len() == 1 {
        assert(a.drop_last() =~= Seq::<u8>::empty());
        assert(bytes_text(a.drop_last()) == Seq::<char>::empty());
        assert(bytes_text(a) =~= seq![byte_char(a[0])]);
        assert(digits_value(a.drop_last()) == 0);
        assert(digits_value(a) == (a[0] - 48) as nat);
        assert(nat_text(digits_value(a)) == seq![digit_char(digits_value(a) as u8)]);
    } else {
        let s = a.drop_last();
        assert(canonical_digits(s)) by {
            assert forall|i: int| 0 <= i < s.len() implies is_digit_byte(#[trigger] s[i]) by {
                assert(s[i] == a[i]);
            }
            assert(s[0] == a[0]);
        }
        lemma_numeral(s);
        lemma_value_lower(a);
        lemma_pow10(0);
        lemma_pow10(1);
        let v = digits_value(a);
        assert(pow10((a.len() - 1) as nat) >= 10) by {
            lemma_pow10_adds(1, (a.len() - 2) as nat);
            lemma_pow10((a.len() - 2) as nat);
            assert((1 + (a.len() - 2)) as nat == (a.len() - 1) as nat);
        }
        assert(v / 10 == digits_value(s));
        assert(v % 10 == (a.last() - 48) as nat);
        assert(nat_text(v) == nat_text(v / 10).push(digit_char((v % 10) as u8)));
        assert(bytes_text(a) == bytes_text(s).push(byte_char(a.last())));
    }
}

/// `m` zero digits.
pub open spec fn zeros(m: nat) -> Seq<u8> {
    Seq::new(m, |i: int| 48u8)
}

/// `m` nine digits.
pub open spec fn nines(m: nat) -> Seq<u8> {
    Seq::new(m, |i: int| 57u8)
}

/// Zero digits denote zero, nine digits one less than a power of ten.
pub proof fn lemma_zeros_nines(m: nat)
    ensures
        digits_value(zeros(m)) == 0,
        digits_value(nines(m)) + 1 == pow10(m),
        all_digits(zeros(m)),
    decreases m,
{
    if m > 0 {
        assert(zeros(m).drop_last() =~= zeros((m - 1) as nat));
        assert(nines(m).drop_last() =~= nines((m - 1) as nat));
        lemma_zeros_nines((m - 1) as nat);
    }
}

/// The character of an ASCII digit.
fn digit_of_byte(c: u8) -> (r: char)
    requires
        is_digit_byte(c),
    ensures
        r == byte_char(c),
{
    if c == 48 {
        '0'
    } else if c == 49 {
        '1'
    } else if c == 50 {
        '2'
    } else if c == 51 {
        '3'
    } else if c == 52 {
        '4'
    } else if c == 53 {
        '5'
    } else if c == 54 {
        '6'
    } else if c == 55 {
        '7'
    } else if c == 56 {
        '8'
    } else {
        '9'
    }
}

/// Appends the characters of the ASCII digits `b[from..to]`.
fn push_bytes(s: &mut String, b: &[u8], from: usize, to: usize)
    requires
        from <= to <= b@.len(),
        all_digits(b@.subrange(from as int, to as int)),
    ensures
        final(s)@ == old(s)@ + bytes_text(b@.subrange(from as int, to as int)),
{
    let ghost start = s@;
    let mut i = from;
    while i < to
        invariant
            from <= i <= to <= b@.len(),
            all_digits(b@.subrange(from as int, to as int)),
            s@ == start + bytes_text(b@.subrange(from as int, i as int)),
        decreases to - i,
    {
        assert(b@.subrange(from as int, to as int)[i - from] == b@[i as int]);
        push_char(s, digit_of_byte(b[i]));
        i = i + 1;
        assert(b@.subrange(from as int, i as int).drop_last() =~= b@.subrange(
            from as int,
            i - 1,
        ));
    }
}

/// Appends `m` zero characters.
fn push_zeros(s: &mut String, m: usize)
    ensures
        final(s)@ == old(s)@ + bytes_text(zeros(m as nat)),
{
    let ghost start = s@;
    let mut i: usize = 0;
    while i < m
        invariant
            i <= m,
            s@ == start + bytes_text(zeros(i as nat)),
        decreases m - i,
    {
        push_char(s, '0');
        i = i + 1;
        assert(zeros(i as nat).drop_last() =~= zeros((i - 1) as nat));
    }
}

/// The characters of digits written one after the other.
pub proof fn lemma_text_concat(a: Seq<u8>, b: Seq<u8>)
    ensures
        bytes_text(a + b) == bytes_text(a) + bytes_text(b),
    decreases b.len(),
{
    if b.len() == 0 {
        assert(a + b =~= a);
        assert(bytes_text(a) + bytes_text(b) =~= bytes_text(a));
    } else {
        assert((a + b).drop_last() =~= a + b.drop_last());
        lemma_text_concat(a, b.drop_last());
        assert(bytes_text(a + b) =~= bytes_text(a) + bytes_text(b));
    }
}

/// Digits denote zero exactly when all of them are zero.
pub proof fn lemma_value_zero(a: Seq<u8>)
    requires
        all_digits(a),
    ensures
        digits_value(a) == 0 <==> a =~= zeros(a.len()),
    decreases a.len(),
{
    if a.len() > 0 {
        let s = a.drop_last();
        assert(all_digits(s)) by {
            assert forall|i: int| 0 <= i < s.len() implies is_digit_byte(#[trigger] s[i]) by {
                assert(s[i] == a[i]);
            }
        }
        lemma_value_zero(s);
        assert(is_digit_byte(a[a.len() - 1]));
        if a =~= zeros(a.len()) {
            assert(s =~= zeros(s.len()));
        }
        if digits_value(a) == 0 {
            assert(s =~= zeros(s.len()));
            assert(a =~= zeros(a.len())) by {
                assert forall|i: int| 0 <= i < a.len() implies a[i] == zeros(a.len())[i] by {
                    if i < a.len() - 1 {
                        assert(a[i] == s[i]);
                    }
                }
            }
        }
    }
}

/// The bytes are the numeral of an integer.
pub fn check_integer_text(b: &[u8]) -> (r: bool)
    ensures
        r == is_integer_text(b@),
{
    let n = b.len();
    if n == 0 {
        return false;
    }
    let first: usize = if b[0] == 45 {
        1
    } else {
        0
    };
    if first == n {
        return false;
    }
    if b[first] == 48 && n > first + 1 {
        proof {
            if first == 1 {
                assert(b@.drop_first()[0] == b@[1]);
            }
        }
        return false;
    }
    let mut i = first;
    while i < n
        invariant
            first <= i <= n == b@.len(),
            first == 1 <==> b@[0] == 45,
            first <= 1,
            forall|k: int| first <= k < i ==> is_digit_byte(#[trigger] b@[k]),
        decreases n - i,
    {
        if b[i] < 48 || b[i] > 57 {
            proof {
                assert(!is_digit_byte(b@[i as int]));
                if first == 1 {
                    assert(b@.drop_first()[i - 1] == b@[i as int]);
                    assert(!is_digit_byte(b@[0]));
                    assert(!all_digits(b@.drop_first()));
                } else {
                    assert(!all_digits(b@));
                }
            }
            return false;
        }
        i = i + 1;
    }
    proof {
        if first == 1 {
            let d = b@.drop_first();
            assert(all_digits(d)) by {
                assert forall|k: int| 0 <= k < d.len() implies is_digit_byte(#[trigger] d[k]) by {
                    assert(d[k] == b@[k + 1]);
                }
            }
            assert(d[0] == b@[1]);
            assert(!canonical_digits(b@)) by {
                assert(!is_digit_byte(b@[0]));
            }
        } else {
            assert(b@[0] != 45);
        }
    }
    !(first == 1 && b[1] == 48)
}

/// The digits of a canonical numeral from `from` on, with the excess over
/// `MAX_NUMERAL_LEN` characters dropped and replaced by zeros, denote the
/// numeral's value divided by `10^k`, truncated and scaled back.
proof fn lemma_truncate(bs: Seq<u8>, from: int, k: nat)
    requires
        0 <= from < MAX_NUMERAL_LEN,
        bs.len() == MAX_NUMERAL_LEN + k,
        canonical_digits(bs.subrange(from, bs.len() as int)),
        bs[from] != 48,
    ensures
        ({
            let digits = bs.subrange(from, bs.len() as int);
            let head = bs.subrange(from, MAX_NUMERAL_LEN as int);
            let tail = bs.subrange(MAX_NUMERAL_LEN as int, bs.len() as int);
            &&& digits == head + tail
            &&& digits_value(digits) == digits_value(head) * pow10(k) + digits_value(tail)
            &&& digits_value(tail) < pow10(k)
            &&& (digits_value(digits) as int) / (pow10(k) as int) == digits_value(head) as int
            &&& (digits_value(digits) as int) % (pow10(k) as int) == digits_value(tail) as int
            &&& canonical_digits(head + zeros(k))
            &&& digits_value(head + zeros(k)) == digits_value(head) * pow10(k)
            &&& nat_text(digits_value(head) * pow10(k)) == bytes_text(head) + bytes_text(zeros(k))
            &&& digits_value(head) >= 1
        }),
{
    let digits = bs.subrange(from, bs.len() as int);
    let head = bs.subrange(from, MAX_NUMERAL_LEN as int);
    let tail = bs.subrange(MAX_NUMERAL_LEN as int, bs.len() as int);
    assert(digits =~= head + tail);
    assert(all_digits(head)) by {
        assert forall|i: int| 0 <= i < head.len() implies is_digit_byte(#[trigger] head[i]) by {
            assert(head[i] == digits[i]);
        }
    }
    assert(all_digits(tail)) by {
        assert forall|i: int| 0 <= i < tail.len() implies is_digit_byte(#[trigger] tail[i]) by {
            assert(tail[i] == digits[i + head.len()]);
        }
    }
    lemma_value_concat(head, tail);
    lemma_value_bound(tail);
    lemma_pow10(k);
    vstd::arithmetic::div_mod::lemma_fundamental_div_mod_converse(
        digits_value(digits) as int,
        pow10(k) as int,
        digits_value(head) as int,
        digits_value(tail) as int,
    );
    lemma_zeros_nines(k);
    lemma_value_concat(head, zeros(k));
    let out = head + zeros(k);
    assert(canonical_digits(out)) by {
        assert forall|i: int| 0 <= i < out.len() implies is_digit_byte(#[trigger] out[i]) by {
            if i < head.len() {
                assert(out[i] == head[i]);
            } else {
                assert(out[i] == zeros(k)[i - head.len()]);
            }
        }
        assert(out[0] == head[0]);
    }
    lemma_numeral(out);
    lemma_text_concat(head, zeros(k));
    lemma_value_lower(head);
    lemma_pow10((head.len() - 1) as nat);
}

/// Whether a positive numeral of more than `MAX_NUMERAL_LEN` digits is
/// rounded up: the first dropped digit decides, and at 5 the other dropped
/// digits, then the parity of the last kept one.
proof fn lemma_round_up(bs: Seq<u8>, k: nat, nonzero: bool, up: bool)
    requires
        canonical_digits(bs),
        bs.len() == MAX_NUMERAL_LEN + k,
        k >= 1,
        nonzero <==> exists|m: int| MAX_NUMERAL_LEN + 1 <= m < bs.len() && bs[m] != 48,
        up == (bs[MAX_NUMERAL_LEN as int] > 53 || (bs[MAX_NUMERAL_LEN as int] == 53 && (nonzero
            || bs[MAX_NUMERAL_LEN - 1] % 2 == 1))),
    ensures
        ({
            let q = digits_value(bs.subrange(0, MAX_NUMERAL_LEN as int));
            rounded_value(bs) == if up {
                (q + 1) * pow10(k)
            } else {
                q * pow10(k)
            }
        }),
{
    let n = bs.len() as int;
    assert(bs.subrange(0, n) =~= bs);
    lemma_truncate(bs, 0, k);
    let head = bs.subrange(0, MAX_NUMERAL_LEN as int);
    let tail = bs.subrange(MAX_NUMERAL_LEN as int, n);
    let rest = bs.subrange(MAX_NUMERAL_LEN + 1, n);
    let c = bs[MAX_NUMERAL_LEN as int];
    assert(tail =~= seq![c] + rest);
    lemma_value_concat(seq![c], rest);
    assert(seq![c].drop_last() =~= Seq::<u8>::empty());
    assert(digits_value(Seq::<u8>::empty()) == 0);
    assert(seq![c].last() == c);
    assert(digits_value(seq![c]) == (c - 48) as nat);
    assert(all_digits(rest)) by {
        assert forall|m: int| 0 <= m < rest.len() implies is_digit_byte(#[trigger] rest[m]) by {
            assert(rest[m] == bs[m + MAX_NUMERAL_LEN + 1]);
        }
    }
    assert(is_digit_byte(c));
    lemma_value_bound(rest);
    lemma_value_zero(rest);
    assert(nonzero <==> digits_value(rest) > 0) by {
        if nonzero {
            let m = choose|m: int| MAX_NUMERAL_LEN + 1 <= m < n && bs[m] != 48;
            assert(rest[m - MAX_NUMERAL_LEN - 1] == bs[m]);
            assert(rest[m - MAX_NUMERAL_LEN - 1] != zeros(rest.len())[m - MAX_NUMERAL_LEN - 1]);
        }
        if digits_value(rest) > 0 {
            assert(!(rest =~= zeros(rest.len())));
            let m = choose|m: int| 0 <= m < rest.len() && rest[m] != zeros(rest.len())[m];
            assert(bs[m + MAX_NUMERAL_LEN + 1] == rest[m]);
        }
    }
    let p = pow10((k - 1) as nat);
    lemma_pow10((k - 1) as nat);
    assert(((k - 1) as nat + 1) as nat == k);
    let d = pow10(k) as int;
    assert(d / 2 == 5 * p);
    let q = digits_value(head);
    assert(head.drop_last() =~= bs.subrange(0, MAX_NUMERAL_LEN - 1));
    assert(head.last() == bs[MAX_NUMERAL_LEN - 1]);
    assert(is_digit_byte(bs[MAX_NUMERAL_LEN - 1]));
    assert((q as int) % 2 != 0 <==> bs[MAX_NUMERAL_LEN - 1] % 2 == 1);
    assert(text_value(bs) == digits_value(bs));
    let r = digits_value(tail) as int;
    let cd = (c - 48) as int;
    assert(r == cd * p + digits_value(rest));
    assert(r > 5 * p <==> (cd > 5 || (cd == 5 && digits_value(rest) > 0))) by (nonlinear_arith)
        requires
            r == cd * p + digits_value(rest),
            0 <= digits_value(rest) < p,
            0 <= cd <= 9,
    ;
    assert(r == 5 * p <==> (cd == 5 && digits_value(rest) == 0)) by (nonlinear_arith)
        requires
            r == cd * p + digits_value(rest),
            0 <= digits_value(rest) < p,
            0 <= cd <= 9,
    ;
    assert(text_value(bs) - (q as int) * d == r);
}

/// A kept part of nines only carries into a new leading digit.
proof fn lemma_carry_out(bs: Seq<u8>, k: nat)
    requires
        bs.len() == MAX_NUMERAL_LEN + k,
        forall|m: int| 0 <= m < MAX_NUMERAL_LEN ==> bs[m] == 57,
    ensures
        int_text(((digits_value(bs.subrange(0, MAX_NUMERAL_LEN as int)) + 1) * pow10(k)) as int)
            == seq!['1'] + bytes_text(zeros((MAX_NUMERAL_LEN + k) as nat)),
{
    let head = bs.subrange(0, MAX_NUMERAL_LEN as int);
    assert(head =~= nines(MAX_NUMERAL_LEN as nat));
    lemma_zeros_nines(MAX_NUMERAL_LEN as nat);
    lemma_zeros_nines((MAX_NUMERAL_LEN + k) as nat);
    let out = seq![49u8] + zeros((MAX_NUMERAL_LEN + k) as nat);
    lemma_value_concat(seq![49u8], zeros((MAX_NUMERAL_LEN + k) as nat));
    assert(seq![49u8].drop_last() =~= Seq::<u8>::empty());
    assert(digits_value(Seq::<u8>::empty()) == 0);
    assert(seq![49u8].last() == 49u8);
    assert(digits_value(seq![49u8]) == 1);
    lemma_pow10_adds(MAX_NUMERAL_LEN as nat, k);
    assert(canonical_digits(out)) by {
        assert forall|m: int| 0 <= m < out.len() implies is_digit_byte(#[trigger] out[m]) by {
            if m > 0 {
                assert(out[m] == zeros((MAX_NUMERAL_LEN + k) as nat)[m - 1]);
            }
        }
    }
    lemma_numeral(out);
    lemma_text_concat(seq![49u8], zeros((MAX_NUMERAL_LEN + k) as nat));
    assert(bytes_text(seq![49u8]) =~= seq!['1']) by {
        assert(seq![49u8].drop_last() =~= Seq::<u8>::empty());
        assert(bytes_text(Seq::<u8>::empty()) == Seq::<char>::empty());
    }
    let q = digits_value(head);
    assert(q + 1 == pow10(MAX_NUMERAL_LEN as nat));
    assert(zeros((MAX_NUMERAL_LEN + k) as nat).len() == (MAX_NUMERAL_LEN + k) as nat);
    assert(digits_value(out) == 1 * pow10((MAX_NUMERAL_LEN + k) as nat) + 0);
    assert(digits_value(out) == pow10((MAX_NUMERAL_LEN + k) as nat));
    assert((MAX_NUMERAL_LEN + k) as nat == MAX_NUMERAL_LEN as nat + k);
    assert((q + 1) * pow10(k) == digits_value(out));
}

/// Rounding up raises the last kept digit that is not a nine, and zeros the
/// nines after it.
proof fn lemma_carry_in(bs: Seq<u8>, k: nat, j: nat)
    requires
        canonical_digits(bs),
        bs.len() == MAX_NUMERAL_LEN + k,
        k >= 1,
        1 <= j <= MAX_NUMERAL_LEN,
        bs[j - 1] != 57,
        forall|m: int| j <= m < MAX_NUMERAL_LEN ==> bs[m] == 57,
    ensures
        int_text(((digits_value(bs.subrange(0, MAX_NUMERAL_LEN as int)) + 1) * pow10(k)) as int)
            == bytes_text(bs.subrange(0, j - 1)).push(byte_char((bs[j - 1] + 1) as u8))
            + bytes_text(zeros((MAX_NUMERAL_LEN - j + k) as nat)),
{
    let head = bs.subrange(0, MAX_NUMERAL_LEN as int);
    let pre = bs.subrange(0, j - 1);
    let c = bs[j - 1];
    assert(is_digit_byte(c));
    let a = pre.push(c);
    let a2 = pre.push((c + 1) as u8);
    let m = (MAX_NUMERAL_LEN - j) as nat;
    assert(head =~= a + nines(m));
    lemma_value_concat(a, nines(m));
    lemma_zeros_nines(m);
    lemma_zeros_nines(m + k);
    assert(a.drop_last() =~= pre && a2.drop_last() =~= pre);
    assert(digits_value(a2) == digits_value(a) + 1);
    let out = a2 + zeros(m + k);
    lemma_value_concat(a2, zeros(m + k));
    lemma_pow10_adds(m, k);
    let q = digits_value(head);
    assert((q + 1) * pow10(k) == digits_value(out)) by (nonlinear_arith)
        requires
            q == digits_value(a) * pow10(m) + digits_value(nines(m)),
            digits_value(nines(m)) + 1 == pow10(m),
            digits_value(a2) == digits_value(a) + 1,
            digits_value(out) == digits_value(a2) * pow10(m + k) + 0,
            pow10(m + k) == pow10(m) * pow10(k),
    ;
    assert(digits_value(zeros(m + k)) == 0);
    assert(canonical_digits(out)) by {
        assert forall|i: int| 0 <= i < out.len() implies is_digit_byte(#[trigger] out[i]) by {
            if i < j - 1 {
                assert(out[i] == bs[i]);
            } else if i == j - 1 {
                assert(out[i] == c + 1);
            } else {
                assert(out[i] == zeros(m + k)[i - j]);
            }
        }
        if j > 1 {
            assert(out[0] == bs[0]);
        }
    }
    lemma_numeral(out);
    lemma_text_concat(a2, zeros(m + k));
    assert(bytes_text(a2) == bytes_text(pre).push(byte_char((c + 1) as u8)));
    assert((MAX_NUMERAL_LEN - j + k) as nat == m + k);
}

/// A negative numeral: its digits truncated, as the remainder is never
/// above half the dropped power of ten.
fn round_negative(b: &[u8]) -> (s: String)
    requires
        is_integer_text(b@),
        b@[0] == 45,
    ensures
        s@ == int_text(rounded_value(b@)),
{
    let n = b.len();
    let ghost bs = b@;
    let mut s = String::new();
    push_char(&mut s, '-');
    let keep = if n <= MAX_NUMERAL_LEN {
        n
    } else {
        MAX_NUMERAL_LEN
    };
    proof {
        let d = bs.drop_first();
        assert(canonical_digits(d)) by {
            assert(!is_digit_byte(bs[0]));
        }
        assert(bs.subrange(1, bs.len() as int) =~= d);
        assert(all_digits(bs.subrange(1, keep as int))) by {
            assert forall|i: int| 0 <= i < keep - 1 implies is_digit_byte(
                #[trigger] bs.subrange(1, keep as int)[i],
            ) by {
                assert(bs.subrange(1, keep as int)[i] == d[i]);
            }
        }
    }
    push_bytes(&mut s, b, 1, keep);
    if n > MAX_NUMERAL_LEN {
        push_zeros(&mut s, n - MAX_NUMERAL_LEN);
    }
    proof {
        let d = bs.drop_first();
        assert(d[0] == bs[1]);
        if n <= MAX_NUMERAL_LEN {
            lemma_numeral(d);
            lemma_value_lower(d);
            lemma_pow10((d.len() - 1) as nat);
            assert(bs.subrange(1, n as int) =~= d);
        } else {
            let k = (n - MAX_NUMERAL_LEN) as nat;
            lemma_truncate(bs, 1, k);
            let head = bs.subrange(1, MAX_NUMERAL_LEN as int);
            let v = digits_value(d);
            let dd = pow10(k) as int;
            lemma_pow10((k - 1) as nat);
            assert(((k - 1) as nat + 1) as nat == k);
            assert(dd >= 10);
            let q = -(digits_value(head) as int);
            let i = text_value(bs);
            vstd::arithmetic::div_mod::lemma_fundamental_div_mod(v as int, dd);
            assert(i - q * dd == -((v as int) % dd)) by (nonlinear_arith)
                requires
                    i == -(v as int),
                    q == -((v as int) / dd),
                    dd > 0,
                    v as int == dd * ((v as int) / dd) + (v as int) % dd,
            ;
            assert(rounded_value(bs) == q * dd);
            assert(q * dd == -((digits_value(head) * pow10(k)) as int)) by (nonlinear_arith)
                requires
                    q == -(digits_value(head) as int),
                    dd == pow10(k),
            ;
            assert(digits_value(head) * pow10(k) >= 1) by (nonlinear_arith)
                requires
                    digits_value(head) >= 1,
                    pow10(k) >= 1,
            ;
        }
    }
    s
}

/// Some byte of `b[from..]` is not the digit zero.
fn has_nonzero(b: &[u8], from: usize) -> (r: bool)
    requires
        from <= b@.len(),
    ensures
        r <==> exists|m: int| from <= m < b@.len() && b@[m] != 48,
{
    let mut i = from;
    while i < b.len()
        invariant
            from <= i <= b@.len(),
            forall|m: int| from <= m < i ==> b@[m] == 48,
        decreases b.len() - i,
    {
        if b[i] != 48 {
            return true;
        }
        i = i + 1;
    }
    false
}

/// Appends the numeral of the kept digits of `b`, raised by one, followed by
/// the zeros of the dropped ones.
fn push_raised(s: &mut String, b: &[u8])
    requires
        canonical_digits(b@),
        b@.len() > MAX_NUMERAL_LEN,
    ensures
        final(s)@ == old(s)@ + int_text(
            ((digits_value(b@.subrange(0, MAX_NUMERAL_LEN as int)) + 1) * pow10(
                (b@.len() - MAX_NUMERAL_LEN) as nat,
            )) as int,
        ),
{
    let ghost bs = b@;
    let n = b.len();
    let k = n - MAX_NUMERAL_LEN;
    let mut j: usize = MAX_NUMERAL_LEN;
    while j > 0 && b[j - 1] == 57
        invariant
            j <= MAX_NUMERAL_LEN < n == bs.len(),
            bs == b@,
            forall|m: int| j <= m < MAX_NUMERAL_LEN ==> bs[m] == 57,
        decreases j,
    {
        j = j - 1;
    }
    if j == 0 {
        push_char(s, '1');
        push_zeros(s, MAX_NUMERAL_LEN + k);
        proof {
            lemma_carry_out(bs, k as nat);
        }
    } else {
        proof {
            assert(all_digits(bs.subrange(0, j - 1))) by {
                assert forall|m: int| 0 <= m < j - 1 implies is_digit_byte(
                    #[trigger] bs.subrange(0, j - 1)[m],
                ) by {
                    assert(bs.subrange(0, j - 1)[m] == bs[m]);
                }
            }
            assert(is_digit_byte(bs[j - 1]));
        }
        push_bytes(s, b, 0, j - 1);
        push_char(s, digit_of_byte(b[j - 1] + 1));
        push_zeros(s, MAX_NUMERAL_LEN - j + k);
        proof {
            lemma_carry_in(bs, k as nat, j as nat);
        }
    }
}

/// A positive numeral of more than `MAX_NUMERAL_LEN` digits.
fn round_long(b: &[u8]) -> (s: String)
    requires
        canonical_digits(b@),
        b@.len() > MAX_NUMERAL_LEN,
    ensures
        s@ == int_text(rounded_value(b@)),
{
    let n = b.len();
    let ghost bs = b@;
    let mut s = String::new();
    let k = n - MAX_NUMERAL_LEN;
    let nonzero = has_nonzero(b, MAX_NUMERAL_LEN + 1);
    let up = b[MAX_NUMERAL_LEN] > 53 || (b[MAX_NUMERAL_LEN] == 53 && (nonzero || b[
        MAX_NUMERAL_LEN - 1] % 2 == 1));
    proof {
        lemma_round_up(bs, k as nat, nonzero, up);
    }
    if !up {
        proof {
            assert(bs.subrange(0, bs.len() as int) =~= bs);
            lemma_truncate(bs, 0, k as nat);
            let head = bs.subrange(0, MAX_NUMERAL_LEN as int);
            assert(all_digits(head)) by {
                assert forall|m: int| 0 <= m < head.len() implies is_digit_byte(
                    #[trigger] head[m],
                ) by {
                    assert(head[m] == bs[m]);
                }
            }
        }
        push_bytes(&mut s, b, 0, MAX_NUMERAL_LEN);
        push_zeros(&mut s, k);
    } else {
        push_raised(&mut s, b);
    }
    s
}

/// The numeral of an integer rounded to at most `MAX_NUMERAL_LEN`
/// characters followed by zeros, as `rounded_value` says; `None` where the
/// text is no integer numeral.
pub fn round_numeral(text: &str) -> (r: Option<String>)
    ensures
        r is None <==> !is_integer_text(text.spec_bytes()),
        r matches Some(s) ==> s@ == int_text(rounded_value(text.spec_bytes())),
{
    let b = text.as_bytes();
    if !check_integer_text(b) {
        return None;
    }
    let n = b.len();
    if b[0] == 45 {
        Some(round_negative(b))
    } else if n <= MAX_NUMERAL_LEN {
        let ghost bs = b@;
        let mut s = String::new();
        proof {
            assert(bs.subrange(0, n as int) =~= bs);
            assert(canonical_digits(bs));
        }
        push_bytes(&mut s, b, 0, n);
        proof {
            lemma_numeral(bs);
        }
        Some(s)
    } else {
        proof {
            assert(canonical_digits(b@));
        }
        Some(round_long(b))
    }
}

} // verus!
