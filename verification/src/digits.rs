//! Decimal text: digit sequences, their numeric value, rendering of
//! fixed-point quantities to canonical decimal text, and scanning text back
//! into a numeral.
//!
//! A numeral is text of the shape `digits` or `digits.digits`. Its value is
//! held in units of `1 / SCALE` (see `arith`); fraction digits beyond the
//! sixth are truncated, exactly as the fixed-point mantissa itself is.

use vstd::prelude::*;
use vstd::string::StringExecFns;
use vstd::string::StrSliceExecFns;
use crate::arith::SCALE;
use crate::arith::pow10;
use crate::arith::n_digits;
use crate::arith::dec_of;
use crate::arith::fsf_u;
use crate::arith::lemma_pow10_values;
use crate::arith::lemma_pow10_pos;
use crate::arith::lemma_pow10_adds;
use crate::arith::lemma_pow10_increases;
use crate::arith::lemma_n_digits_bounds;
use crate::arith::lemma_n_digits_from_bounds;
use crate::arith::lemma_div_pow10_digits;
use crate::arith::pow10_u64;
use crate::arith::digit_count;
use crate::arith::get_first_significant_figure;
use vstd::arithmetic::div_mod::lemma_fundamental_div_mod;
use vstd::arithmetic::div_mod::lemma_mod_division_less_than_divisor;
use vstd::arithmetic::mul::lemma_mul_inequality;

verus! {

pub open spec fn is_digit(c: char) -> bool {
    '0' <= c && c <= '9'
}

pub open spec fn is_alpha(c: char) -> bool {
    ('A' <= c && c <= 'Z') || ('a' <= c && c <= 'z')
}

/// The numeric value of one decimal digit character.
pub open spec fn digit_val(c: char) -> nat {
    ((c as int) - ('0' as int)) as nat
}

/// The character for one decimal digit.
pub open spec fn digit_char(d: nat) -> char {
    if d == 0 {
        '0'
    } else if d == 1 {
        '1'
    } else if d == 2 {
        '2'
    } else if d == 3 {
        '3'
    } else if d == 4 {
        '4'
    } else if d == 5 {
        '5'
    } else if d == 6 {
        '6'
    } else if d == 7 {
        '7'
    } else if d == 8 {
        '8'
    } else {
        '9'
    }
}

pub open spec fn all_digits(s: Seq<char>) -> bool {
    forall|i: int| 0 <= i < s.len() ==> is_digit(#[trigger] s[i])
}

/// The number a digit sequence denotes, most significant digit first.
pub open spec fn digits_val(s: Seq<char>) -> nat
    decreases s.len(),
{
    if s.len() == 0 {
        0
    } else {
        digits_val(s.drop_last()) * 10 + digit_val(s.last())
    }
}

/// The canonical decimal rendering of a natural number, without leading
/// zeros (zero itself renders as one `'0'`).
pub open spec fn render_nat(n: nat) -> Seq<char>
    decreases n,
{
    if n < 10 {
        seq![digit_char(n)]
    } else {
        render_nat(n / 10).push(digit_char(n % 10))
    }
}

/// A run of `k` zero digit characters.
pub open spec fn zeros(k: nat) -> Seq<char> {
    Seq::new(k, |i: int| '0')
}

/// The zero-padded `k`-digit rendering of `m` (modulo ten to the `k`).
pub open spec fn pad_digits(m: nat, k: nat) -> Seq<char>
    decreases k,
{
    if k == 0 {
        Seq::empty()
    } else {
        pad_digits(m / 10, (k - 1) as nat).push(digit_char(m % 10))
    }
}

pub proof fn lemma_digit_char_val(d: nat)
    requires
        d < 10,
    ensures
        is_digit(digit_char(d)),
        digit_val(digit_char(d)) == d,
        d != 0 ==> digit_char(d) != '0',
{
}

pub proof fn lemma_digit_val_bound(c: char)
    requires
        is_digit(c),
    ensures
        digit_val(c) < 10,
        digit_char(digit_val(c)) == c,
{
}

/// `digits_val` of a sequence extended by one digit on the right.
pub proof fn lemma_digits_val_push(s: Seq<char>, c: char)
    ensures
        digits_val(s.push(c)) == digits_val(s) * 10 + digit_val(c),
{
    assert(s.push(c).drop_last() =~= s);
    assert(s.push(c).last() == c);
}

/// Every digit sequence denotes less than ten to its length.
pub proof fn lemma_digits_val_upper(s: Seq<char>)
    requires
        all_digits(s),
    ensures
        digits_val(s) < pow10(s.len()),
    decreases s.len(),
{
    lemma_pow10_values();
    if s.len() == 0 {
    } else {
        let b = s.drop_last();
        assert(all_digits(b)) by {
            assert(forall|i: int| 0 <= i < b.len() ==> b[i] == s[i]);
        }
        lemma_digits_val_upper(b);
        assert(digits_val(b) + 1 <= pow10(b.len()));
        assert((digits_val(b) + 1) * 10 <= pow10(b.len()) * 10) by {
            lemma_mul_inequality(digits_val(b) as int + 1, pow10(b.len()) as int, 10);
        }
        assert(pow10(b.len()) * 10 == pow10(s.len())) by {
            lemma_pow10_adds(b.len(), 1);
        }
        assert(digit_val(s.last()) <= 9);
    }
}

/// A digit sequence whose first digit is not zero denotes a number with
/// exactly as many digits as the sequence has characters.
pub proof fn lemma_digits_val_len(s: Seq<char>)
    requires
        all_digits(s),
        s.len() >= 1,
        s[0] != '0',
    ensures
        pow10((s.len() - 1) as nat) <= digits_val(s) < pow10(s.len()),
        n_digits(digits_val(s)) == s.len(),
    decreases s.len(),
{
    lemma_pow10_values();
    lemma_digits_val_upper(s);
    if s.len() == 1 {
        assert(digit_val(s[0]) >= 1);
        assert(s.drop_last().len() == 0);
    } else {
        let b = s.drop_last();
        assert(all_digits(b));
        assert(b[0] != '0');
        lemma_digits_val_len(b);
        assert(pow10((b.len() - 1) as nat) * 10 <= digits_val(b) * 10) by {
            lemma_mul_inequality(pow10((b.len() - 1) as nat) as int, digits_val(b) as int, 10);
        }
        assert(pow10((b.len() - 1) as nat) * 10 == pow10(b.len())) by {
            lemma_pow10_adds((b.len() - 1) as nat, 1);
        }
    }
    lemma_n_digits_from_bounds(digits_val(s), (s.len() - 1) as nat);
}

/// Splitting a digit sequence at `k` splits its value at the corresponding
/// power of ten.
pub proof fn lemma_digits_val_split(s: Seq<char>, k: int)
    requires
        0 <= k <= s.len(),
    ensures
        digits_val(s) == digits_val(s.take(k)) * pow10((s.len() - k) as nat) + digits_val(
            s.skip(k),
        ),
    decreases s.len(),
{
    lemma_pow10_values();
    if k == s.len() {
        assert(s.take(k) =~= s);
        assert(s.skip(k).len() == 0);
        assert(digits_val(s.skip(k)) == 0);
        assert(digits_val(s.take(k)) == digits_val(s));
        assert(digits_val(s) * pow10(0) == digits_val(s));
    } else {
        let b = s.drop_last();
        lemma_digits_val_split(b, k);
        assert(b.take(k) =~= s.take(k));
        assert(s.skip(k).drop_last() =~= b.skip(k));
        assert(s.skip(k).last() == s.last());
        assert(digits_val(s.skip(k)) == digits_val(b.skip(k)) * 10 + digit_val(s.last()));
        let p = pow10((b.len() - k) as nat);
        assert(pow10((s.len() - k) as nat) == p * 10) by {
            lemma_pow10_adds((b.len() - k) as nat, 1);
        }
        assert(digits_val(s) == digits_val(b) * 10 + digit_val(s.last()));
        assert(digits_val(b) * 10 == (digits_val(s.take(k)) * p + digits_val(b.skip(k))) * 10);
        assert((digits_val(s.take(k)) * p + digits_val(b.skip(k))) * 10 == digits_val(s.take(k))
            * (p * 10) + digits_val(b.skip(k)) * 10) by {
            vstd::arithmetic::mul::lemma_mul_is_distributive_add_other_way(
                10,
                digits_val(s.take(k)) * p as int,
                digits_val(b.skip(k)) as int,
            );
            vstd::arithmetic::mul::lemma_mul_is_associative(
                digits_val(s.take(k)) as int,
                p as int,
                10,
            );
        }
    }
}

/// Appending zero digits multiplies the value by the matching power of ten.
pub proof fn lemma_digits_val_append_zeros(s: Seq<char>, k: nat)
    ensures
        digits_val(s + zeros(k)) == digits_val(s) * pow10(k),
    decreases k,
{
    lemma_pow10_values();
    if k == 0 {
        assert(s + zeros(0) =~= s);
    } else {
        assert((s + zeros((k - 1) as nat)).push('0') =~= s + zeros(k));
        lemma_digits_val_append_zeros(s, (k - 1) as nat);
        lemma_digits_val_push(s + zeros((k - 1) as nat), '0');
        assert(digit_val('0') == 0);
        assert(digits_val(s) * pow10((k - 1) as nat) * 10 == digits_val(s) * pow10(k)) by {
            lemma_pow10_adds((k - 1) as nat, 1);
            vstd::arithmetic::mul::lemma_mul_is_associative(
                digits_val(s) as int,
                pow10((k - 1) as nat) as int,
                10,
            );
        }
    }
}

/// Leading zero digits do not change the value.
pub proof fn lemma_digits_val_strip_zeros(s: Seq<char>, k: int)
    requires
        0 <= k <= s.len(),
        forall|i: int| 0 <= i < k ==> s[i] == '0',
    ensures
        digits_val(s) == digits_val(s.skip(k)),
{
    lemma_digits_val_split(s, k);
    assert(digits_val(s.take(k)) == 0) by {
        lemma_digits_val_zeros(s.take(k));
    }
}

pub proof fn lemma_digits_val_zeros(s: Seq<char>)
    requires
        forall|i: int| 0 <= i < s.len() ==> s[i] == '0',
    ensures
        digits_val(s) == 0,
    decreases s.len(),
{
    if s.len() > 0 {
        lemma_digits_val_zeros(s.drop_last());
        assert(s.last() == '0');
        assert(digit_val('0') == 0);
    }
}

/// The canonical rendering of `n` consists of digits, has no leading zero
/// (unless `n` is zero itself), has `n_digits(n)` characters, and denotes
/// `n`.
pub proof fn lemma_render_nat_props(n: nat)
    ensures
        render_nat(n).len() == n_digits(n),
        all_digits(render_nat(n)),
        digits_val(render_nat(n)) == n,
        n >= 1 ==> render_nat(n)[0] != '0',
    decreases n,
{
    if n < 10 {
        lemma_digit_char_val(n);
        assert(render_nat(n) =~= Seq::<char>::empty().push(digit_char(n)));
        assert(digits_val(Seq::<char>::empty()) == 0);
        lemma_digits_val_push(Seq::<char>::empty(), digit_char(n));
    } else {
        let m = n / 10;
        lemma_render_nat_props(m);
        vstd::arithmetic::div_mod::lemma_div_is_ordered(10, n as int, 10);
        lemma_digit_char_val(n % 10);
        lemma_digits_val_push(render_nat(m), digit_char(n % 10));
        lemma_fundamental_div_mod(n as int, 10);
        lemma_mod_division_less_than_divisor(n as int, 10);
        assert(render_nat(n)[0] == render_nat(m)[0]);
        assert(forall|i: int|
            0 <= i < render_nat(n).len() ==> is_digit(#[trigger] render_nat(n)[i])) by {
            assert(forall|i: int|
                0 <= i < render_nat(m).len() ==> is_digit(#[trigger] render_nat(m)[i]));
            assert(render_nat(n).last() == digit_char(n % 10));
            assert(forall|i: int| 0 <= i < render_nat(m).len() ==> render_nat(n)[i]
                == render_nat(m)[i]);
        }
    }
}

/// The zero-padded rendering of `m` to `k` places consists of digits and
/// denotes `m`, whenever `m` fits in `k` digits.
pub proof fn lemma_pad_digits_props(m: nat, k: nat)
    requires
        m < pow10(k),
    ensures
        pad_digits(m, k).len() == k,
        all_digits(pad_digits(m, k)),
        digits_val(pad_digits(m, k)) == m,
    decreases k,
{
    lemma_pow10_values();
    if k == 0 {
    } else {
        let m1 = m / 10;
        assert(m1 < pow10((k - 1) as nat)) by {
            lemma_pow10_adds((k - 1) as nat, 1);
            lemma_fundamental_div_mod(m as int, 10);
            lemma_mod_division_less_than_divisor(m as int, 10);
            if m1 >= pow10((k - 1) as nat) {
                lemma_mul_inequality(pow10((k - 1) as nat) as int, m1 as int, 10);
                assert(false);
            }
        }
        lemma_pad_digits_props(m1, (k - 1) as nat);
        lemma_mod_division_less_than_divisor(m as int, 10);
        lemma_digit_char_val(m % 10);
        lemma_digits_val_push(pad_digits(m1, (k - 1) as nat), digit_char(m % 10));
        lemma_fundamental_div_mod(m as int, 10);
        let p = pad_digits(m, k);
        assert(forall|i: int| 0 <= i < p.len() ==> is_digit(#[trigger] p[i])) by {
            let q = pad_digits(m1, (k - 1) as nat);
            assert(forall|i: int| 0 <= i < q.len() ==> is_digit(#[trigger] q[i]));
            assert(forall|i: int| 0 <= i < q.len() ==> p[i] == q[i]);
            assert(p.last() == digit_char(m % 10));
        }
    }
}

/// Dropping the last `j` digits of a digit sequence divides its value by ten
/// to the `j`.
pub proof fn lemma_digits_val_prefix_div(s: Seq<char>, k: int)
    requires
        all_digits(s),
        0 <= k <= s.len(),
    ensures
        digits_val(s) / pow10((s.len() - k) as nat) == digits_val(s.take(k)),
{
    let p = pow10((s.len() - k) as nat);
    lemma_pow10_pos((s.len() - k) as nat);
    lemma_digits_val_split(s, k);
    assert(all_digits(s.skip(k))) by {
        assert(forall|i: int| 0 <= i < s.skip(k).len() ==> s.skip(k)[i] == s[i + k]);
    }
    lemma_digits_val_upper(s.skip(k));
    assert(s.skip(k).len() == s.len() - k);
    vstd::arithmetic::div_mod::lemma_div_multiples_vanish_fancy(
        digits_val(s.take(k)) as int,
        digits_val(s.skip(k)) as int,
        p as int,
    );
}

/// Length of the longest prefix made of decimal digits.
pub open spec fn prefix_digit_len(s: Seq<char>) -> nat
    decreases s.len(),
{
    if s.len() == 0 || !is_digit(s[0]) {
        0
    } else {
        1 + prefix_digit_len(s.skip(1))
    }
}

/// Length of the longest prefix made of decimal digits and dots.
pub open spec fn prefix_numlike_len(s: Seq<char>) -> nat
    decreases s.len(),
{
    if s.len() == 0 || !(is_digit(s[0]) || s[0] == '.') {
        0
    } else {
        1 + prefix_numlike_len(s.skip(1))
    }
}

/// Length of the longest suffix made of letters.
pub open spec fn suffix_alpha_len(s: Seq<char>) -> nat
    decreases s.len(),
{
    if s.len() == 0 || !is_alpha(s.last()) {
        0
    } else {
        1 + suffix_alpha_len(s.drop_last())
    }
}

/// Length of the longest suffix made of decimal digits.
pub open spec fn suffix_digit_len(s: Seq<char>) -> nat
    decreases s.len(),
{
    if s.len() == 0 || !is_digit(s.last()) {
        0
    } else {
        1 + suffix_digit_len(s.drop_last())
    }
}

/// A scan that saw `c` digits and then stopped has found the longest digit
/// prefix.
pub proof fn lemma_prefix_digit_len_scan(s: Seq<char>, c: int)
    requires
        0 <= c <= s.len(),
        forall|i: int| 0 <= i < c ==> is_digit(#[trigger] s[i]),
        c < s.len() ==> !is_digit(s[c]),
    ensures
        prefix_digit_len(s) == c,
    decreases c,
{
    if c == 0 {
    } else {
        let t = s.skip(1);
        assert(forall|i: int| 0 <= i < c - 1 ==> is_digit(#[trigger] t[i])) by {
            assert(forall|i: int| 0 <= i < c - 1 ==> t[i] == s[i + 1]);
        }
        assert(c - 1 < t.len() ==> !is_digit(t[c - 1]));
        lemma_prefix_digit_len_scan(t, c - 1);
    }
}

pub proof fn lemma_prefix_numlike_len_scan(s: Seq<char>, c: int)
    requires
        0 <= c <= s.len(),
        forall|i: int| 0 <= i < c ==> is_digit(#[trigger] s[i]) || s[i] == '.',
        c < s.len() ==> !(is_digit(s[c]) || s[c] == '.'),
    ensures
        prefix_numlike_len(s) == c,
    decreases c,
{
    if c == 0 {
    } else {
        let t = s.skip(1);
        assert(forall|i: int| 0 <= i < c - 1 ==> is_digit(#[trigger] t[i]) || t[i] == '.') by {
            assert(forall|i: int| 0 <= i < c - 1 ==> t[i] == s[i + 1]);
        }
        assert(c - 1 < t.len() ==> !(is_digit(t[c - 1]) || t[c - 1] == '.'));
        lemma_prefix_numlike_len_scan(t, c - 1);
    }
}

/// A scan from the end that saw `c` letters and then stopped has found the
/// longest letter suffix.
pub proof fn lemma_suffix_alpha_len_scan(s: Seq<char>, c: int)
    requires
        0 <= c <= s.len(),
        forall|i: int| s.len() - c <= i < s.len() ==> is_alpha(#[trigger] s[i]),
        c < s.len() ==> !is_alpha(s[s.len() - c - 1]),
    ensures
        suffix_alpha_len(s) == c,
    decreases c,
{
    if c == 0 {
    } else {
        let t = s.drop_last();
        assert(is_alpha(s.last()));
        assert(forall|i: int| t.len() - (c - 1) <= i < t.len() ==> is_alpha(#[trigger] t[i])) by {
            assert(forall|i: int| 0 <= i < t.len() ==> t[i] == s[i]);
        }
        assert(c - 1 < t.len() ==> !is_alpha(t[t.len() - (c - 1) - 1]));
        lemma_suffix_alpha_len_scan(t, c - 1);
    }
}

pub proof fn lemma_suffix_digit_len_scan(s: Seq<char>, c: int)
    requires
        0 <= c <= s.len(),
        forall|i: int| s.len() - c <= i < s.len() ==> is_digit(#[trigger] s[i]),
        c < s.len() ==> !is_digit(s[s.len() - c - 1]),
    ensures
        suffix_digit_len(s) == c,
    decreases c,
{
    if c == 0 {
    } else {
        let t = s.drop_last();
        assert(is_digit(s.last()));
        assert(forall|i: int| t.len() - (c - 1) <= i < t.len() ==> is_digit(#[trigger] t[i])) by {
            assert(forall|i: int| 0 <= i < t.len() ==> t[i] == s[i]);
        }
        assert(c - 1 < t.len() ==> !is_digit(t[t.len() - (c - 1) - 1]));
        lemma_suffix_digit_len_scan(t, c - 1);
    }
}

/// A numeral is one run of digits, optionally followed by a dot and a
/// nonempty run of digits.
pub open spec fn numeral_valid(s: Seq<char>) -> bool {
    let il = prefix_digit_len(s) as int;
    il >= 1 && (il == s.len() || (s[il] == '.' && s.len() >= il + 2 && all_digits(s.skip(il + 1))))
}

/// The fraction digits of a numeral (empty when it has no dot).
pub open spec fn numeral_frac(s: Seq<char>) -> Seq<char> {
    let il = prefix_digit_len(s) as int;
    if il == s.len() {
        Seq::empty()
    } else {
        s.skip(il + 1)
    }
}

/// Fraction digits padded or truncated to exactly six places.
pub open spec fn pad6(f: Seq<char>) -> Seq<char> {
    if f.len() >= 6 {
        f.take(6)
    } else {
        f + zeros((6 - f.len()) as nat)
    }
}

/// The value of a fraction-digit run, in units: digits beyond the sixth are
/// truncated.
pub open spec fn frac6_val(f: Seq<char>) -> nat {
    digits_val(pad6(f))
}

/// The value a numeral denotes, in units.
pub open spec fn numeral_units(s: Seq<char>) -> nat {
    digits_val(s.take(prefix_digit_len(s) as int)) * (SCALE as nat) + frac6_val(numeral_frac(s))
}

/// How many trailing zeros a fraction quantity ends in, out of its six
/// places.
pub open spec fn tz6(f: nat) -> nat
    decreases f,
{
    if f == 0 {
        6
    } else if f % 10 != 0 {
        0
    } else {
        1 + tz6(f / 10)
    }
}

pub proof fn lemma_tz6(f: nat)
    requires
        1 <= f < SCALE,
    ensures
        tz6(f) <= 5,
        f % pow10(tz6(f)) == 0,
        (f / pow10(tz6(f))) % 10 != 0,
        1 <= f / pow10(tz6(f)),
        f / pow10(tz6(f)) < pow10((6 - tz6(f)) as nat),
    decreases f,
{
    lemma_pow10_values();
    if f % 10 != 0 {
        assert(f / pow10(0) == f);
        assert(f % pow10(0) == 0) by {
            lemma_fundamental_div_mod(f as int, 1);
        }
    } else {
        let g = f / 10;
        lemma_fundamental_div_mod(f as int, 10);
        assert(f == 10 * g);
        assert(g >= 1);
        lemma_tz6(g);
        let t = tz6(g);
        assert(tz6(f) == 1 + t);
        lemma_pow10_adds(1, t);
        assert(pow10(1 + t) == 10 * pow10(t));
        assert(g % pow10(t) == 0);
        lemma_pow10_pos(t);
        let q = g / pow10(t);
        lemma_fundamental_div_mod(g as int, pow10(t) as int);
        assert(g == pow10(t) * q);
        assert(f == 10 * (pow10(t) * q));
        assert(f == (10 * pow10(t)) * q) by {
            vstd::arithmetic::mul::lemma_mul_is_associative(10, pow10(t) as int, q as int);
        }
        assert(f / pow10(1 + t) == q) by {
            vstd::arithmetic::div_mod::lemma_div_denominator(f as int, 10, pow10(t) as int);
            assert(f / 10 == g);
            assert((f as int / 10) / (pow10(t) as int) == f as int / (10 * pow10(t)) as int);
        }
        assert(f % pow10(1 + t) == 0) by {
            vstd::arithmetic::div_mod::lemma_mod_multiples_basic(q as int, (10 * pow10(t)) as int);
            assert(q as int * (10 * pow10(t)) as int == f as int) by {
                vstd::arithmetic::mul::lemma_mul_is_commutative(q as int, (10 * pow10(t)) as int);
            }
        }
        assert(g < pow10(5)) by {
            if g >= pow10(5) {
                assert(10 * pow10(5) <= 10 * g) by {
                    lemma_mul_inequality(pow10(5) as int, g as int, 10);
                    vstd::arithmetic::mul::lemma_mul_is_commutative(10, pow10(5) as int);
                    vstd::arithmetic::mul::lemma_mul_is_commutative(10, g as int);
                }
                assert(false);
            }
        }
        assert(t <= 4) by {
            if t == 5 {
                assert(q >= 1);
                assert(pow10(5) * 1 <= pow10(5) * q) by {
                    vstd::arithmetic::mul::lemma_mul_left_inequality(pow10(5) as int, 1, q as int);
                }
                assert(g == pow10(5) * q);
                assert(false);
            }
        }
        assert(q < pow10((6 - (1 + t)) as nat)) by {
            if q >= pow10((5 - t) as nat) {
                assert(pow10(t) * pow10((5 - t) as nat) <= pow10(t) * q) by {
                    vstd::arithmetic::mul::lemma_mul_left_inequality(
                        pow10(t) as int,
                        pow10((5 - t) as nat) as int,
                        q as int,
                    );
                }
                lemma_pow10_adds(t, (5 - t) as nat);
                assert(false);
            }
        }
    }
}

/// The canonical text of a fraction quantity: its six places with the
/// trailing zeros removed.
pub open spec fn frac_text(f: nat) -> Seq<char> {
    pad_digits(f / pow10(tz6(f)), (6 - tz6(f)) as nat)
}

/// The canonical decimal text of a units quantity: the whole part, then a
/// dot and the fraction digits if there are any.
pub open spec fn numeral_text(u: nat) -> Seq<char> {
    if u % (SCALE as nat) == 0 {
        render_nat(u / (SCALE as nat))
    } else {
        render_nat(u / (SCALE as nat)) + seq!['.'] + frac_text(u % (SCALE as nat))
    }
}

/// The canonical text of a (possibly negative) whole number.
pub open spec fn int_text(v: int) -> Seq<char> {
    if v < 0 {
        seq!['-'] + render_nat((-v) as nat)
    } else {
        render_nat(v as nat)
    }
}

/// The canonical text of a units quantity is a well-formed numeral made of
/// digits and at most one dot, it denotes that quantity again, and its whole
/// part is exactly the digit count of the whole number.
pub proof fn lemma_numeral_text_props(u: nat)
    ensures
        numeral_text(u).len() >= 1,
        forall|j: int|
            0 <= j < numeral_text(u).len() ==> is_digit(#[trigger] numeral_text(u)[j])
                || numeral_text(u)[j] == '.',
        is_digit(numeral_text(u)[0]),
        is_digit(numeral_text(u).last()),
        u >= SCALE ==> numeral_text(u)[0] != '0',
        numeral_valid(numeral_text(u)),
        numeral_units(numeral_text(u)) == u,
        prefix_digit_len(numeral_text(u)) == n_digits(u / (SCALE as nat)),
{
    lemma_pow10_values();
    let i = u / (SCALE as nat);
    let f = u % (SCALE as nat);
    lemma_fundamental_div_mod(u as int, SCALE as int);
    lemma_mod_division_less_than_divisor(u as int, SCALE as int);
    let r = render_nat(i);
    lemma_render_nat_props(i);
    let t = numeral_text(u);
    if f == 0 {
        assert(t == r);
        lemma_prefix_digit_len_scan(t, t.len() as int);
        assert(t.take(t.len() as int) =~= t);
        assert(numeral_frac(t) =~= Seq::<char>::empty());
        assert(pad6(Seq::<char>::empty()) =~= zeros(6));
        lemma_digits_val_zeros(zeros(6));
        assert(frac6_val(numeral_frac(t)) == 0);
        assert(numeral_units(t) == i * (SCALE as nat));
        assert(t.last() == t[t.len() - 1]);
    } else {
        lemma_tz6(f);
        let tz = tz6(f);
        let fq = f / pow10(tz);
        let ft = frac_text(f);
        lemma_pad_digits_props(fq, (6 - tz) as nat);
        assert(t =~= (r + seq!['.']) + ft);
        assert(t.len() == r.len() + 1 + ft.len());
        assert(forall|j: int| 0 <= j < r.len() ==> t[j] == r[j]);
        assert(t[r.len() as int] == '.');
        assert(forall|j: int| r.len() + 1 <= j < t.len() ==> t[j] == ft[j - r.len() - 1]);
        lemma_prefix_digit_len_scan(t, r.len() as int);
        let il = r.len() as int;
        assert(t.skip(il + 1) =~= ft);
        assert(ft.len() >= 1);
        assert(numeral_valid(t));
        assert(t.take(il) =~= r);
        assert(numeral_frac(t) == ft);
        assert(pad6(ft) =~= ft + zeros(tz)) by {
            if ft.len() >= 6 {
                assert(tz == 0);
                assert(ft.take(6) =~= ft + zeros(0));
            }
        }
        lemma_digits_val_append_zeros(ft, tz);
        assert(frac6_val(ft) == fq * pow10(tz));
        assert(fq * pow10(tz) == f) by {
            lemma_pow10_pos(tz);
            lemma_fundamental_div_mod(f as int, pow10(tz) as int);
        }
        assert(numeral_units(t) == i * (SCALE as nat) + f);
        assert(t.last() == ft.last());
        assert(ft.last() == ft[ft.len() - 1]);
        assert(is_digit(t[0]));
    }
}

/// The canonical text of a whole number: its digits, preceded by a minus
/// sign exactly when it is negative; the digit run denotes its magnitude.
pub proof fn lemma_int_text_props(v: int)
    ensures
        int_text(v).len() >= 1,
        is_digit(int_text(v).last()),
        v >= 0 ==> all_digits(int_text(v)) && digits_val(int_text(v)) == v,
        v < 0 ==> int_text(v)[0] == '-' && all_digits(int_text(v).skip(1)) && digits_val(
            int_text(v).skip(1),
        ) == -v,
{
    if v >= 0 {
        lemma_render_nat_props(v as nat);
        let t = int_text(v);
        assert(t.last() == t[t.len() - 1]);
    } else {
        let r = render_nat((-v) as nat);
        lemma_render_nat_props((-v) as nat);
        let t = int_text(v);
        assert(t.len() == r.len() + 1);
        assert(t[0] == '-');
        assert(forall|j: int| 1 <= j < t.len() ==> t[j] == r[j - 1]);
        assert(t.skip(1) =~= r);
        assert(t.last() == t[t.len() - 1]);
        assert(r.last() == r[r.len() - 1]);
    }
}

/// The first `k` characters of a rendering are the rendering of the number
/// with its last digits dropped.
pub proof fn lemma_render_nat_prefix(n: nat, k: int)
    requires
        1 <= k <= n_digits(n),
    ensures
        render_nat(n).take(k) =~= render_nat(n / pow10((n_digits(n) - k) as nat)),
    decreases n_digits(n) - k,
{
    lemma_pow10_values();
    lemma_render_nat_props(n);
    let d = n_digits(n);
    if k == d {
        assert(n / pow10(0) == n);
        assert(render_nat(n).take(k) =~= render_nat(n));
    } else {
        assert(n >= 10) by {
            if n < 10 {
                assert(n_digits(n) == 1);
            }
        }
        let m = n / 10;
        assert(n_digits(m) == d - 1);
        lemma_render_nat_prefix(m, k);
        lemma_render_nat_props(m);
        assert(render_nat(n) == render_nat(m).push(digit_char(n % 10)));
        assert(render_nat(n).take(k) =~= render_nat(m).take(k));
        assert(m / pow10((d - 1 - k) as nat) == n / pow10((d - k) as nat)) by {
            lemma_pow10_pos((d - 1 - k) as nat);
            vstd::arithmetic::div_mod::lemma_div_denominator(
                n as int,
                10,
                pow10((d - 1 - k) as nat) as int,
            );
            lemma_pow10_adds(1, (d - 1 - k) as nat);
        }
    }
}

/// The padded rendering of the low `k + 1` digits extends the padded
/// rendering of the low `k` digits of the next-higher division.
pub proof fn lemma_pad_digits_step(m: nat, k: nat)
    requires
        k >= 1,
    ensures
        pad_digits(m, k) == pad_digits(m / 10, (k - 1) as nat).push(digit_char(m % 10)),
{
}

/// Only one trailing-zero count fits a factorization: if `f` is `q` times
/// ten to the `k` with `q` not ending in zero, then `k` is it.
pub proof fn lemma_tz6_unique(f: nat, q: nat, k: nat)
    requires
        f == q * pow10(k),
        q >= 1,
        q % 10 != 0,
    ensures
        tz6(f) == k,
        f / pow10(k) == q,
    decreases k,
{
    lemma_pow10_values();
    lemma_pow10_pos(k);
    assert(f >= 1) by {
        lemma_mul_inequality(1, q as int, pow10(k) as int);
    }
    assert(f / pow10(k) == q) by {
        vstd::arithmetic::div_mod::lemma_div_by_multiple(q as int, pow10(k) as int);
    }
    if k == 0 {
        assert(f == q) by {
            assert(pow10(0) == 1);
            vstd::arithmetic::mul::lemma_mul_basics(q as int);
        }
    } else {
        let g = q * pow10((k - 1) as nat);
        assert(f == g * 10) by {
            lemma_pow10_adds((k - 1) as nat, 1);
            vstd::arithmetic::mul::lemma_mul_is_associative(
                q as int,
                pow10((k - 1) as nat) as int,
                10,
            );
        }
        assert(f % 10 == 0) by {
            vstd::arithmetic::div_mod::lemma_mod_multiples_basic(g as int, 10);
        }
        assert(f / 10 == g) by {
            vstd::arithmetic::div_mod::lemma_div_by_multiple(g as int, 10);
        }
        lemma_tz6_unique(g, q, (k - 1) as nat);
        assert(f != 0);
    }
}

/// Appends one digit character to a string.
pub fn push_digit(s: &mut String, d: u64)
    requires
        d <= 9,
    ensures
        final(s)@ == old(s)@.push(digit_char(d as nat)),
{
    proof {
        reveal_strlit("0");
        reveal_strlit("1");
        reveal_strlit("2");
        reveal_strlit("3");
        reveal_strlit("4");
        reveal_strlit("5");
        reveal_strlit("6");
        reveal_strlit("7");
        reveal_strlit("8");
        reveal_strlit("9");
    }
    let piece: &str = if d == 0 {
        "0"
    } else if d == 1 {
        "1"
    } else if d == 2 {
        "2"
    } else if d == 3 {
        "3"
    } else if d == 4 {
        "4"
    } else if d == 5 {
        "5"
    } else if d == 6 {
        "6"
    } else if d == 7 {
        "7"
    } else if d == 8 {
        "8"
    } else {
        "9"
    };
    s.append(piece);
    proof {
        assert(s@ =~= old(s)@.push(digit_char(d as nat)));
    }
}

/// Renders a natural number as decimal text.
pub fn render_nat_str(n: u64) -> (s: String)
    ensures
        s@ == render_nat(n as nat),
{
    let c = digit_count(n);
    let mut s = String::new();
    let mut j: u32 = 0;
    while j < c
        invariant
            j <= c,
            c as nat == n_digits(n as nat),
            c <= 20,
            j == 0 ==> s@ =~= Seq::<char>::empty(),
            j >= 1 ==> s@ == render_nat((n as nat) / pow10((c - j) as nat)),
        decreases c - j,
    {
        let p = pow10_u64(c - 1 - j);
        proof {
            lemma_pow10_values();
            lemma_pow10_pos((c - 1 - j) as nat);
        }
        let m = n / p;
        let dg = m % 10;
        proof {
            let mm = (n as nat) / pow10((c - 1 - j) as nat);
            if j == 0 {
                if c == 1 {
                    assert(pow10(0) == 1);
                    assert(mm == n as nat) by {
                        lemma_fundamental_div_mod(n as int, 1);
                        lemma_mod_division_less_than_divisor(n as int, 1);
                    }
                    assert(n < 10) by {
                        if n >= 10 {
                            assert(n_digits(n as nat / 10) >= 1);
                            assert(n_digits(n as nat) == 1 + n_digits(n as nat / 10));
                        }
                    }
                } else {
                    lemma_div_pow10_digits(n as nat, (c - 1) as nat);
                    assert(n_digits(mm) == 1);
                    assert(mm < 10) by {
                        if mm >= 10 {
                            lemma_n_digits_bounds(mm);
                            lemma_pow10_values();
                            assert(n_digits(mm) >= 2) by {
                                if n_digits(mm) == 1 {
                                    assert(pow10(1) <= mm ==> false);
                                }
                                lemma_n_digits_from_bounds(mm, 1);
                            }
                        }
                    }
                }
                assert(render_nat(mm) =~= seq![digit_char(mm)]);
                assert(mm % 10 == mm);
            } else {
                assert(n >= 1) by {
                    if n == 0 {
                        assert(n_digits(0) == 1);
                    }
                }
                assert(mm >= 10) by {
                    lemma_n_digits_bounds(n as nat);
                    assert(pow10((c - 1) as nat) <= n as nat);
                    assert(pow10((c - 1) as nat) == pow10(j as nat) * pow10(
                        (c - 1 - j) as nat,
                    )) by {
                        lemma_pow10_adds(j as nat, (c - 1 - j) as nat);
                    }
                    assert(pow10((c - 1) as nat) / pow10((c - 1 - j) as nat) == pow10(
                        j as nat,
                    )) by {
                        vstd::arithmetic::div_mod::lemma_div_by_multiple(
                            pow10(j as nat) as int,
                            pow10((c - 1 - j) as nat) as int,
                        );
                    }
                    vstd::arithmetic::div_mod::lemma_div_is_ordered(
                        pow10((c - 1) as nat) as int,
                        n as int,
                        pow10((c - 1 - j) as nat) as int,
                    );
                    lemma_pow10_increases(1, j as nat);
                }
                assert(render_nat(mm) == render_nat(mm / 10).push(digit_char(mm % 10)));
                assert(mm / 10 == (n as nat) / pow10((c - j) as nat)) by {
                    vstd::arithmetic::div_mod::lemma_div_denominator(
                        n as int,
                        pow10((c - 1 - j) as nat) as int,
                        10,
                    );
                    lemma_pow10_adds((c - 1 - j) as nat, 1);
                }
            }
        }
        push_digit(&mut s, dg);
        j = j + 1;
    }
    proof {
        lemma_pow10_values();
        assert((n as nat) / pow10(0) == n as nat) by {
            lemma_fundamental_div_mod(n as int, 1);
            lemma_mod_division_less_than_divisor(n as int, 1);
        }
    }
    s
}

/// Renders a units quantity as its canonical decimal text.
pub fn render_units(u: u64) -> (s: String)
    ensures
        s@ == numeral_text(u as nat),
{
    proof {
        lemma_pow10_values();
        lemma_fundamental_div_mod(u as int, SCALE as int);
        lemma_mod_division_less_than_divisor(u as int, SCALE as int);
    }
    let ip = u / SCALE;
    let fp = u % SCALE;
    let mut s = render_nat_str(ip);
    if fp > 0 {
        proof {
            reveal_strlit(".");
        }
        s.append(".");
        let ghost before = s@;
        let mut f: u64 = fp;
        let mut tz: u32 = 0;
        while f % 10 == 0
            invariant
                1 <= f <= fp < SCALE,
                tz <= 6,
                (f as nat) * pow10(tz as nat) == fp as nat,
            decreases f,
        {
            proof {
                lemma_pow10_values();
                lemma_pow10_adds(tz as nat, 1);
                lemma_fundamental_div_mod(f as int, 10);
                let f1 = (f as nat) / 10;
                assert((f as nat) == f1 * 10);
                assert(f1 * 10 * pow10(tz as nat) == f1 * pow10((tz + 1) as nat)) by {
                    vstd::arithmetic::mul::lemma_mul_is_associative(
                        f1 as int,
                        10,
                        pow10(tz as nat) as int,
                    );
                }
                assert(tz < 6) by {
                    if tz >= 6 {
                        lemma_pow10_increases(6, tz as nat);
                        lemma_mul_inequality(1, f as int, pow10(tz as nat) as int);
                        assert(false);
                    }
                }
            }
            f = f / 10;
            tz = tz + 1;
        }
        proof {
            lemma_tz6_unique(fp as nat, f as nat, tz as nat);
            lemma_tz6(fp as nat);
        }
        let width = 6 - tz;
        proof {
            assert(pad_digits((f as nat) / pow10(width as nat), 0) =~= Seq::<char>::empty());
            assert(s@ == before + pad_digits((f as nat) / pow10(width as nat), 0)) by {
                assert(s@ =~= before + Seq::<char>::empty());
            }
        }
        let mut k: u32 = 0;
        while k < width
            invariant
                k <= width,
                width == 6 - tz,
                tz <= 5,
                f >= 1,
                s@ == before + pad_digits((f as nat) / pow10((width - k) as nat), k as nat),
            decreases width - k,
        {
            let p = pow10_u64(width - 1 - k);
            proof {
                lemma_pow10_values();
                lemma_pow10_pos((width - 1 - k) as nat);
            }
            let m = f / p;
            let dg = m % 10;
            proof {
                let mm = (f as nat) / pow10((width - 1 - k) as nat);
                lemma_pad_digits_step(mm, (k + 1) as nat);
                assert(mm / 10 == (f as nat) / pow10((width - k) as nat)) by {
                    vstd::arithmetic::div_mod::lemma_div_denominator(
                        f as int,
                        pow10((width - 1 - k) as nat) as int,
                        10,
                    );
                    lemma_pow10_adds((width - 1 - k) as nat, 1);
                }
            }
            push_digit(&mut s, dg);
            k = k + 1;
        }
        proof {
            assert(pow10(0) == 1);
            assert((f as nat) / pow10(0) == f as nat);
            assert(s@ == before + frac_text(fp as nat));
            assert(s@ =~= render_nat(ip as nat) + seq!['.'] + frac_text(fp as nat));
        }
    } else {
        proof {
            assert(s@ == numeral_text(u as nat));
        }
    }
    s
}

pub fn is_digit_c(c: char) -> (b: bool)
    ensures
        b == is_digit(c),
{
    '0' <= c && c <= '9'
}

pub fn is_alpha_c(c: char) -> (b: bool)
    ensures
        b == is_alpha(c),
{
    ('A' <= c && c <= 'Z') || ('a' <= c && c <= 'z')
}

pub fn digit_val_c(c: char) -> (d: u64)
    requires
        is_digit(c),
    ensures
        d as nat == digit_val(c),
        d <= 9,
{
    (c as u32 as u64) - 48
}

/// What a scan of one numeral finds: whether the text is well formed, and
/// the value's decomposition into decade and first significant figure. The
/// exact value in units is reported only when it is small enough to hold in
/// a machine word; it always is whenever the numeral denotes less than a
/// thousand.
pub struct NumeralScan {
    pub valid: bool,
    pub zero: bool,
    pub dec: i64,
    pub fsf: u64,
    pub low: Option<u64>,
}

/// Renders a whole number, with a leading minus sign when negative.
pub fn render_int_str(v: i64) -> (s: String)
    requires
        v > i64::MIN,
    ensures
        s@ == int_text(v as int),
{
    if v < 0 {
        proof {
            reveal_strlit("-");
        }
        let mut s = String::from_str("-");
        let rest = render_nat_str((-v) as u64);
        s.append(rest.as_str());
        proof {
            assert(s@ =~= int_text(v as int));
        }
        s
    } else {
        render_nat_str(v as u64)
    }
}

/// Advances from `from` over decimal digits; returns where the run ends.
pub fn scan_digits_fwd(s: &str, from: usize, to: usize) -> (r: usize)
    requires
        from <= to <= s@.len(),
    ensures
        from <= r <= to,
        forall|k: int| from <= k < r ==> is_digit(#[trigger] s@[k]),
        r < to ==> !is_digit(s@[r as int]),
{
    let mut i: usize = from;
    while i < to
        invariant
            from <= i <= to <= s@.len(),
            forall|k: int| from <= k < i ==> is_digit(#[trigger] s@[k]),
        decreases to - i,
    {
        if !is_digit_c(s.get_char(i)) {
            return i;
        }
        i = i + 1;
    }
    i
}

/// Advances from `from` over decimal digits and dots; returns where the run
/// ends.
pub fn scan_numlike_fwd(s: &str, from: usize, to: usize) -> (r: usize)
    requires
        from <= to <= s@.len(),
    ensures
        from <= r <= to,
        forall|k: int| from <= k < r ==> is_digit(#[trigger] s@[k]) || s@[k] == '.',
        r < to ==> !(is_digit(s@[r as int]) || s@[r as int] == '.'),
{
    let mut i: usize = from;
    while i < to
        invariant
            from <= i <= to <= s@.len(),
            forall|k: int| from <= k < i ==> is_digit(#[trigger] s@[k]) || s@[k] == '.',
        decreases to - i,
    {
        let c = s.get_char(i);
        if !(is_digit_c(c) || c == '.') {
            return i;
        }
        i = i + 1;
    }
    i
}

/// Advances from `from` over zero digits; returns where the zeros end.
pub fn scan_zeros_fwd(s: &str, from: usize, to: usize) -> (r: usize)
    requires
        from <= to <= s@.len(),
    ensures
        from <= r <= to,
        forall|k: int| from <= k < r ==> #[trigger] s@[k] == '0',
        r < to ==> s@[r as int] != '0',
{
    let mut i: usize = from;
    while i < to
        invariant
            from <= i <= to <= s@.len(),
            forall|k: int| from <= k < i ==> #[trigger] s@[k] == '0',
        decreases to - i,
    {
        if !(s.get_char(i) == '0') {
            return i;
        }
        i = i + 1;
    }
    i
}

/// The value of the first six fraction digits in `[fs, to)`, padded with
/// zeros on the right, as a units quantity below one.
pub fn frac6_of(s: &str, fs: usize, to: usize) -> (v: u64)
    requires
        fs <= to <= s@.len(),
        forall|k: int| fs <= k < to ==> is_digit(#[trigger] s@[k]),
    ensures
        v as nat == frac6_val(s@.subrange(fs as int, to as int)),
        v < SCALE,
{
    let ghost fseq = s@.subrange(fs as int, to as int);
    let flen = to - fs;
    let tk: usize = if flen < 6 {
        flen
    } else {
        6
    };
    let mut acc: u64 = 0;
    let mut p: usize = 0;
    proof {
        lemma_pow10_values();
        assert(fseq.take(0) =~= Seq::<char>::empty());
    }
    while p < tk
        invariant
            p <= tk <= 6,
            tk <= fseq.len(),
            fs + fseq.len() == to <= s@.len(),
            fseq == s@.subrange(fs as int, to as int),
            forall|k: int| fs <= k < to ==> is_digit(#[trigger] s@[k]),
            acc as nat == digits_val(fseq.take(p as int)),
            acc < pow10(p as nat),
        decreases tk - p,
    {
        proof {
            lemma_pow10_values();
            assert(fseq[p as int] == s@[fs + p]);
        }
        let d = digit_val_c(s.get_char(fs + p));
        proof {
            assert(fseq.take(p + 1) =~= fseq.take(p as int).push(fseq[p as int]));
            lemma_digits_val_push(fseq.take(p as int), fseq[p as int]);
            lemma_pow10_adds(p as nat, 1);
            lemma_pow10_increases(p as nat + 1, 6);
        }
        acc = acc * 10 + d;
        p = p + 1;
    }
    proof {
        lemma_pow10_values();
        lemma_pow10_adds(tk as nat, (6 - tk) as nat);
        lemma_pow10_increases((6 - tk) as nat, 6);
    }
    let mult = pow10_u64((6 - tk) as u32);
    proof {
        assert(acc as nat * (mult as nat) < pow10(6)) by {
            lemma_pow10_pos((6 - tk) as nat);
            lemma_mul_inequality(acc as int, pow10(tk as nat) as int - 1, mult as int);
            vstd::arithmetic::mul::lemma_mul_is_distributive_sub_other_way(
                pow10((6 - tk) as nat) as int,
                pow10(tk as nat) as int,
                1,
            );
        }
    }
    let v = acc * mult;
    proof {
        if fseq.len() >= 6 {
            assert(tk == 6);
            assert(pad6(fseq) == fseq.take(6));
            assert(mult == 1);
        } else {
            assert(tk == fseq.len());
            assert(fseq.take(tk as int) =~= fseq);
            assert(pad6(fseq) == fseq + zeros((6 - fseq.len()) as nat));
            lemma_digits_val_append_zeros(fseq, (6 - fseq.len()) as nat);
        }
        assert(all_digits(pad6(fseq))) by {
            assert(forall|k: int| 0 <= k < fseq.len() ==> is_digit(#[trigger] fseq[k]));
            if fseq.len() >= 6 {
                assert(forall|k: int|
                    0 <= k < pad6(fseq).len() ==> pad6(fseq)[k] == fseq[k]);
            } else {
                assert(forall|k: int|
                    0 <= k < pad6(fseq).len() ==> is_digit(#[trigger] pad6(fseq)[k])) by {
                    assert(forall|k: int|
                        fseq.len() <= k < 6 ==> pad6(fseq)[k] == zeros(
                            (6 - fseq.len()) as nat,
                        )[k - fseq.len()]);
                }
            }
        }
        lemma_digits_val_upper(pad6(fseq));
        assert(pad6(fseq).len() == 6);
    }
    v
}

/// Scans the character range `[from, to)` of `s` as a numeral, reporting
/// whether it is well formed and, if so, the value's shape: whether it is
/// zero, its decade, its first significant figure, and — when it fits in a
/// machine word — the exact value in units.
pub fn scan_numeral(s: &str, from: usize, to: usize) -> (r: NumeralScan)
    requires
        from <= to <= s@.len(),
        to - from < 0x4000_0000,
    ensures
        r.valid == numeral_valid(s@.subrange(from as int, to as int)),
        r.valid ==> r.zero == (numeral_units(s@.subrange(from as int, to as int)) == 0),
        r.valid && !r.zero ==> r.dec as int == dec_of(
            numeral_units(s@.subrange(from as int, to as int)),
        ),
        r.valid && !r.zero ==> -6 <= r.dec <= to - from + 13,
        r.valid && !r.zero ==> r.fsf as nat == fsf_u(
            numeral_units(s@.subrange(from as int, to as int)),
        ),
        r.valid && numeral_units(s@.subrange(from as int, to as int)) < 1000 * SCALE
            ==> r.low == Some(numeral_units(s@.subrange(from as int, to as int)) as u64),
        r.valid && numeral_units(s@.subrange(from as int, to as int)) >= 1000 * SCALE
            ==> r.low == None::<u64>,
{
    let ghost sub = s@.subrange(from as int, to as int);
    proof {
        assert(forall|k: int| 0 <= k < sub.len() ==> sub[k] == s@[k + from]);
    }
    let invalid = NumeralScan { valid: false, zero: false, dec: 0, fsf: 0, low: None };
    let iend = scan_digits_fwd(s, from, to);
    let il = iend - from;
    proof {
        lemma_prefix_digit_len_scan(sub, il as int);
    }
    if il == 0 {
        return invalid;
    }
    let fstart: usize;
    if iend < to {
        if !(s.get_char(iend) == '.') {
            proof {
                assert(sub[il as int] != '.');
            }
            return invalid;
        }
        if to - iend < 2 {
            return invalid;
        }
        let fdig = scan_digits_fwd(s, iend + 1, to);
        if fdig < to {
            proof {
                assert(!is_digit(sub[fdig - from]));
                assert(sub.skip(il + 1)[fdig - from - il - 1] == sub[fdig - from]);
                assert(!all_digits(sub.skip(il + 1)));
            }
            return invalid;
        }
        fstart = iend + 1;
    } else {
        fstart = to;
    }
    proof {
        if fstart < to {
            assert(sub[il as int] == '.');
            assert(numeral_valid(sub)) by {
                assert(forall|k: int|
                    0 <= k < sub.skip(il + 1).len() ==> is_digit(
                        #[trigger] sub.skip(il + 1)[k],
                    )) by {
                    assert(forall|k: int|
                        0 <= k < sub.skip(il + 1).len() ==> #[trigger] sub.skip(il + 1)[k]
                            == s@[k + from + il + 1]);
                }
            }
        } else {
            assert(numeral_valid(sub));
        }
        assert(numeral_frac(sub) =~= s@.subrange(fstart as int, to as int));
        assert(forall|k: int| fstart <= k < to ==> is_digit(#[trigger] s@[k])) by {
            assert(forall|k: int|
                fstart <= k < to ==> s@[k] == sub.skip(il + 1)[k - fstart]);
        }
    }
    let fr6 = frac6_of(s, fstart, to);
    let ghost units = numeral_units(sub);
    let ghost ipart = sub.take(il as int);
    proof {
        assert(units == digits_val(ipart) * (SCALE as nat) + fr6);
        assert(forall|k: int| 0 <= k < ipart.len() ==> ipart[k] == s@[k + from]);
        assert(all_digits(ipart));
    }
    let z = scan_zeros_fwd(s, from, iend);
    if z == iend {
        // the whole part is all zeros, so the value is just the fraction
        proof {
            assert(forall|k: int| 0 <= k < ipart.len() ==> ipart[k] == '0');
            lemma_digits_val_zeros(ipart);
            assert(units == fr6);
            lemma_pow10_values();
        }
        if fr6 == 0 {
            return NumeralScan { valid: true, zero: true, dec: 0, fsf: 0, low: Some(0) };
        }
        let c = digit_count(fr6);
        let f = get_first_significant_figure(fr6);
        return NumeralScan {
            valid: true,
            zero: false,
            dec: c as i64 - 7,
            fsf: f,
            low: Some(fr6),
        };
    }
    let lsig = iend - z;
    let ghost stripped = sub.subrange(z - from, il as int);
    proof {
        lemma_pow10_values();
        assert(forall|k: int| 0 <= k < stripped.len() ==> stripped[k] == s@[k + z]);
        assert(all_digits(stripped));
        assert(stripped[0] == s@[z as int]);
        assert(is_digit(stripped[0]) && stripped[0] != '0');
        lemma_digits_val_strip_zeros(ipart, z - from);
        assert(ipart.skip(z - from) =~= stripped);
        assert(digits_val(ipart) == digits_val(stripped));
        lemma_digits_val_len(stripped);
    }
    if lsig <= 3 {
        // the value fits: at most three whole digits and six fraction digits
        let mut iv: u64 = 0;
        let mut q: usize = 0;
        proof {
            assert(stripped.take(0) =~= Seq::<char>::empty());
        }
        while q < lsig
            invariant
                q <= lsig <= 3,
                z + lsig == iend <= s@.len(),
                stripped == sub.subrange(z - from, il as int),
                sub == s@.subrange(from as int, to as int),
                from <= z,
                z - from + stripped.len() == il,
                stripped.len() == lsig,
                forall|k: int| 0 <= k < stripped.len() ==> stripped[k] == s@[k + z],
                all_digits(stripped),
                iv as nat == digits_val(stripped.take(q as int)),
                iv < pow10(q as nat),
            decreases lsig - q,
        {
            proof {
                lemma_pow10_values();
                assert(stripped[q as int] == s@[q as int + z]);
                assert(is_digit(stripped[q as int]));
            }
            let d = digit_val_c(s.get_char(z + q));
            proof {
                assert(stripped.take(q + 1) =~= stripped.take(q as int).push(
                    stripped[q as int],
                ));
                lemma_digits_val_push(stripped.take(q as int), stripped[q as int]);
                lemma_pow10_adds(q as nat, 1);
            }
            iv = iv * 10 + d;
            q = q + 1;
        }
        proof {
            lemma_pow10_values();
            assert(stripped.take(lsig as int) =~= stripped);
            assert(iv as nat == digits_val(stripped));
            assert(iv >= 1);
        }
        let u = iv * SCALE + fr6;
        proof {
            assert(units == u);
            assert(u >= SCALE);
        }
        let c = digit_count(u);
        let f = get_first_significant_figure(u);
        return NumeralScan {
            valid: true,
            zero: false,
            dec: c as i64 - 7,
            fsf: f,
            low: Some(u),
        };
    }
    // four or more significant whole digits: the value tops a thousand
    let ghost frac = numeral_frac(sub);
    let ghost whole = stripped + pad6(frac);
    let flen = to - fstart;
    proof {
        lemma_pow10_values();
        assert(all_digits(pad6(frac))) by {
            assert(forall|k: int| 0 <= k < frac.len() ==> is_digit(#[trigger] frac[k])) by {
                assert(forall|k: int| 0 <= k < frac.len() ==> frac[k] == s@[k + fstart]);
            }
            if frac.len() >= 6 {
                assert(forall|k: int| 0 <= k < pad6(frac).len() ==> pad6(frac)[k] == frac[k]);
            } else {
                assert(forall|k: int|
                    0 <= k < pad6(frac).len() ==> is_digit(#[trigger] pad6(frac)[k])) by {
                    assert(forall|k: int|
                        frac.len() <= k < 6 ==> pad6(frac)[k] == zeros(
                            (6 - frac.len()) as nat,
                        )[k - frac.len()]);
                }
            }
        }
        assert(pad6(frac).len() == 6);
        assert(all_digits(whole)) by {
            assert(forall|k: int|
                0 <= k < whole.len() ==> is_digit(#[trigger] whole[k])) by {
                assert(forall|k: int|
                    0 <= k < stripped.len() ==> whole[k] == stripped[k]);
                assert(forall|k: int|
                    stripped.len() <= k < whole.len() ==> whole[k] == pad6(frac)[k
                        - stripped.len()]);
            }
        }
        lemma_digits_val_split(whole, lsig as int);
        assert(whole.take(lsig as int) =~= stripped);
        assert(whole.skip(lsig as int) =~= pad6(frac));
        assert(digits_val(whole) == digits_val(stripped) * pow10(6) + frac6_val(frac));
        assert(units == digits_val(whole));
        assert(whole[0] == stripped[0]);
        lemma_digits_val_len(whole);
        assert(n_digits(units) == lsig + 6);
        assert(units >= pow10((lsig + 5) as nat));
        lemma_pow10_increases(9, (lsig + 5) as nat);
        assert(units >= 1000 * SCALE);
        lemma_digits_val_prefix_div(whole, 7);
        assert(fsf_u(units) == digits_val(whole.take(7)));
        assert(whole.take(7).take(0) =~= Seq::<char>::empty());
    }
    let mut acc: u64 = 0;
    let mut p: usize = 0;
    while p < 7
        invariant
            p <= 7,
            lsig >= 4,
            z + lsig == iend <= to <= s@.len(),
            fstart <= to,
            flen == to - fstart,
            4 <= lsig < 0x4000_0000,
            whole == stripped + pad6(numeral_frac(sub)),
            frac == numeral_frac(sub),
            sub == s@.subrange(from as int, to as int),
            stripped.len() == lsig,
            whole.len() == lsig + 6,
            all_digits(whole),
            forall|k: int| 0 <= k < stripped.len() ==> stripped[k] == s@[k + z],
            forall|k: int| 0 <= k < frac.len() ==> frac[k] == s@[k + fstart],
            frac.len() == flen,
            pad6(frac) == whole.skip(lsig as int),
            acc as nat == digits_val(whole.take(p as int)),
            acc < pow10(p as nat),
        decreases 7 - p,
    {
        proof {
            lemma_pow10_values();
        }
        let ch: char;
        if p < lsig {
            ch = s.get_char(z + p);
            proof {
                assert(whole[p as int] == stripped[p as int]);
            }
        } else if p - lsig < flen {
            ch = s.get_char(fstart + (p - lsig));
            proof {
                assert(whole[p as int] == pad6(frac)[p - lsig]);
                assert(frac.len() >= 6 ==> pad6(frac)[p - lsig] == frac.take(6)[p - lsig]);
                assert(frac.len() < 6 ==> pad6(frac)[p - lsig] == frac[p - lsig]);
            }
        } else {
            ch = '0';
            proof {
                assert(whole[p as int] == pad6(frac)[p - lsig]);
                assert(frac.len() < 6);
                assert(pad6(frac)[p - lsig] == zeros((6 - frac.len()) as nat)[p - lsig
                    - frac.len()]);
            }
        }
        proof {
            assert(ch == whole[p as int]);
            assert(is_digit(ch));
            assert(whole.take(p + 1) =~= whole.take(p as int).push(whole[p as int]));
            lemma_digits_val_push(whole.take(p as int), whole[p as int]);
            lemma_pow10_adds(p as nat, 1);
        }
        let d = digit_val_c(ch);
        acc = acc * 10 + d;
        p = p + 1;
    }
    proof {
        lemma_pow10_values();
    }
    NumeralScan {
        valid: true,
        zero: false,
        dec: (lsig as i64) - 1,
        fsf: acc,
        low: None,
    }
}

/// Walks back from the end of `s` over letters; returns where the trailing
/// letter run starts.
pub fn scan_alpha_back(s: &str) -> (j: usize)
    ensures
        j <= s@.len(),
        forall|k: int| j <= k < s@.len() ==> is_alpha(#[trigger] s@[k]),
        j > 0 ==> !is_alpha(s@[j - 1]),
        suffix_alpha_len(s@) == s@.len() - j,
{
    let n = s.unicode_len();
    let mut j: usize = n;
    while j > 0
        invariant
            j <= n == s@.len(),
            forall|k: int| j <= k < s@.len() ==> is_alpha(#[trigger] s@[k]),
        decreases j,
    {
        if !is_alpha_c(s.get_char(j - 1)) {
            proof {
                lemma_suffix_alpha_len_scan(s@, s@.len() - j);
            }
            return j;
        }
        j = j - 1;
    }
    proof {
        lemma_suffix_alpha_len_scan(s@, s@.len() as int);
    }
    j
}

/// Walks back from the end of `s` over decimal digits; returns where the
/// trailing digit run starts.
pub fn scan_digits_back(s: &str) -> (j: usize)
    ensures
        j <= s@.len(),
        forall|k: int| j <= k < s@.len() ==> is_digit(#[trigger] s@[k]),
        j > 0 ==> !is_digit(s@[j - 1]),
        suffix_digit_len(s@) == s@.len() - j,
{
    let n = s.unicode_len();
    let mut j: usize = n;
    while j > 0
        invariant
            j <= n == s@.len(),
            forall|k: int| j <= k < s@.len() ==> is_digit(#[trigger] s@[k]),
        decreases j,
    {
        if !is_digit_c(s.get_char(j - 1)) {
            proof {
                lemma_suffix_digit_len_scan(s@, s@.len() - j);
            }
            return j;
        }
        j = j - 1;
    }
    proof {
        lemma_suffix_digit_len_scan(s@, s@.len() as int);
    }
    j
}

/// Compares the character range `[from, to)` of `s` with the whole of `t`.
pub fn region_eq_str(s: &str, from: usize, to: usize, t: &str) -> (r: bool)
    requires
        from <= to <= s@.len(),
    ensures
        r == (s@.subrange(from as int, to as int) == t@),
{
    let tn = t.unicode_len();
    if to - from != tn {
        proof {
            assert(s@.subrange(from as int, to as int).len() != t@.len());
        }
        return false;
    }
    let mut k: usize = 0;
    while k < tn
        invariant
            k <= tn == t@.len(),
            from + tn <= to <= s@.len(),
            to - from == tn,
            forall|i: int| 0 <= i < k ==> s@.subrange(from as int, to as int)[i] == t@[i],
        decreases tn - k,
    {
        let a = s.get_char(from + k);
        let b = t.get_char(k);
        if !(a == b) {
            proof {
                assert(s@.subrange(from as int, to as int)[k as int] == s@[from + k]);
            }
            return false;
        }
        proof {
            assert(s@.subrange(from as int, to as int)[k as int] == s@[from + k]);
        }
        k = k + 1;
    }
    proof {
        assert(s@.subrange(from as int, to as int) =~= t@);
    }
    true
}

/// Reads the digit run `[from, to)` as a whole number, refusing values that
/// do not fit in a signed 32-bit word.
pub fn parse_i32_digits(s: &str, from: usize, to: usize) -> (r: Option<i32>)
    requires
        from <= to <= s@.len(),
        forall|k: int| from <= k < to ==> is_digit(#[trigger] s@[k]),
    ensures
        digits_val(s@.subrange(from as int, to as int)) <= i32::MAX ==> r == Some(
            digits_val(s@.subrange(from as int, to as int)) as i32,
        ),
        digits_val(s@.subrange(from as int, to as int)) > i32::MAX ==> r == None::<i32>,
{
    let ghost sub = s@.subrange(from as int, to as int);
    proof {
        assert(forall|k: int| 0 <= k < sub.len() ==> sub[k] == s@[k + from]);
        assert(sub.take(0) =~= Seq::<char>::empty());
    }
    let mut acc: u64 = 0;
    let mut k: usize = 0;
    while k < to - from
        invariant
            k <= to - from,
            from <= to <= s@.len(),
            sub == s@.subrange(from as int, to as int),
            forall|j: int| from <= j < to ==> is_digit(#[trigger] s@[j]),
            acc as nat == digits_val(sub.take(k as int)),
            acc <= i32::MAX,
        decreases to - from - k,
    {
        proof {
            assert(sub[k as int] == s@[k + from]);
        }
        let d = digit_val_c(s.get_char(from + k));
        proof {
            assert(sub.take(k + 1) =~= sub.take(k as int).push(sub[k as int]));
            lemma_digits_val_push(sub.take(k as int), sub[k as int]);
        }
        let next = acc * 10 + d;
        if next > 0x7fff_ffff {
            proof {
                lemma_digits_val_split(sub, k + 1);
                lemma_pow10_pos((sub.len() - k - 1) as nat);
                assert(digits_val(sub) >= digits_val(sub.take(k + 1)) * pow10(
                    (sub.len() - k - 1) as nat,
                )) by {
                    assert(digits_val(sub) == digits_val(sub.take(k + 1)) * pow10(
                        (sub.len() - k - 1) as nat,
                    ) + digits_val(sub.skip(k + 1)));
                }
                assert(digits_val(sub.take(k + 1)) * 1 <= digits_val(sub.take(k + 1)) * pow10(
                    (sub.len() - k - 1) as nat,
                )) by {
                    vstd::arithmetic::mul::lemma_mul_left_inequality(
                        digits_val(sub.take(k + 1)) as int,
                        1,
                        pow10((sub.len() - k - 1) as nat) as int,
                    );
                }
            }
            return None;
        }
        acc = next;
        k = k + 1;
    }
    proof {
        assert(sub.take((to - from) as int) =~= sub);
    }
    Some(acc as i32)
}

} // verus!
