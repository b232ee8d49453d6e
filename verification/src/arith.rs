//! Integer arithmetic underlying the value model.
//!
//! A mantissa is held in fixed-point decimal "units": a value `v` is stored
//! as `v * SCALE` truncated to an integer, so six decimal fraction digits are
//! carried. Everything the notations and operators need — powers of ten,
//! decimal digit counts, the decade (floor of the base-ten logarithm) and the
//! first significant figure — is defined here over plain integers.

use vstd::prelude::*;
use vstd::arithmetic::power::pow;
use vstd::arithmetic::power::lemma_pow0;
use vstd::arithmetic::power::lemma_pow1;
use vstd::arithmetic::power::lemma_pow_positive;
use vstd::arithmetic::power::lemma_pow_adds;
use vstd::arithmetic::power::lemma_pow_strictly_increases;
use vstd::arithmetic::div_mod::lemma_fundamental_div_mod;
use vstd::arithmetic::div_mod::lemma_div_by_multiple;
use vstd::arithmetic::div_mod::lemma_div_is_ordered;
use vstd::arithmetic::mul::lemma_mul_inequality;
use vstd::arithmetic::mul::lemma_mul_strict_inequality;

verus! {

/// Fixed-point scale of a mantissa: six decimal fraction digits.
pub const SCALE: u64 = 1_000_000;

/// Ten to the power `e`, as a natural number.
pub open spec fn pow10(e: nat) -> nat {
    pow(10, e) as nat
}

pub proof fn lemma_pow10_pos(e: nat)
    ensures
        pow10(e) >= 1,
{
    lemma_pow_positive(10, e);
}

pub proof fn lemma_pow10_adds(a: nat, b: nat)
    ensures
        pow10(a + b) == pow10(a) * pow10(b),
{
    lemma_pow_positive(10, a);
    lemma_pow_positive(10, b);
    lemma_pow_adds(10, a, b);
}

pub proof fn lemma_pow10_increases(a: nat, b: nat)
    requires
        a <= b,
    ensures
        pow10(a) <= pow10(b),
{
    lemma_pow_positive(10, a);
    lemma_pow_positive(10, b);
    if a < b {
        lemma_pow_strictly_increases(10, a, b);
    }
}

pub proof fn lemma_pow10_strictly_increases(a: nat, b: nat)
    requires
        a < b,
    ensures
        pow10(a) < pow10(b),
{
    lemma_pow_positive(10, a);
    lemma_pow_positive(10, b);
    lemma_pow_strictly_increases(10, a, b);
}

/// The concrete values of the small powers of ten, up to the largest one that
/// still fits in a `u64`.
pub proof fn lemma_pow10_values()
    ensures
        pow10(0) == 1,
        pow10(1) == 10,
        pow10(2) == 100,
        pow10(3) == 1000,
        pow10(4) == 10_000,
        pow10(5) == 100_000,
        pow10(6) == 1_000_000,
        pow10(7) == 10_000_000,
        pow10(8) == 100_000_000,
        pow10(9) == 1_000_000_000,
        pow10(10) == 10_000_000_000,
        pow10(11) == 100_000_000_000,
        pow10(12) == 1_000_000_000_000,
        pow10(13) == 10_000_000_000_000,
        pow10(14) == 100_000_000_000_000,
        pow10(15) == 1_000_000_000_000_000,
        pow10(16) == 10_000_000_000_000_000,
        pow10(17) == 100_000_000_000_000_000,
        pow10(18) == 1_000_000_000_000_000_000,
        pow10(19) == 10_000_000_000_000_000_000,
{
    lemma_pow0(10);
    lemma_pow1(10);
    assert(pow10(0) == 1);
    assert(pow10(1) == 10);
    lemma_pow10_adds(1, 1);
    lemma_pow10_adds(2, 1);
    lemma_pow10_adds(3, 1);
    lemma_pow10_adds(4, 1);
    lemma_pow10_adds(5, 1);
    lemma_pow10_adds(6, 1);
    lemma_pow10_adds(7, 1);
    lemma_pow10_adds(8, 1);
    lemma_pow10_adds(9, 1);
    lemma_pow10_adds(10, 1);
    lemma_pow10_adds(11, 1);
    lemma_pow10_adds(12, 1);
    lemma_pow10_adds(13, 1);
    lemma_pow10_adds(14, 1);
    lemma_pow10_adds(15, 1);
    lemma_pow10_adds(16, 1);
    lemma_pow10_adds(17, 1);
    lemma_pow10_adds(18, 1);
}

/// Ten to the power `e` as an executable `u64`.
pub fn pow10_u64(e: u32) -> (r: u64)
    requires
        e <= 19,
    ensures
        r as nat == pow10(e as nat),
{
    proof {
        lemma_pow10_values();
    }
    let mut r: u64 = 1;
    let mut i: u32 = 0;
    while i < e
        invariant
            i <= e <= 19,
            r as nat == pow10(i as nat),
        decreases e - i,
    {
        proof {
            lemma_pow10_increases(i as nat + 1, 19);
            lemma_pow10_adds(i as nat, 1);
            lemma_pow10_values();
        }
        r = r * 10;
        i = i + 1;
    }
    r
}

/// How many decimal digits `n` has; zero counts as one digit.
pub open spec fn n_digits(n: nat) -> nat
    decreases n,
{
    if n < 10 {
        1
    } else {
        1 + n_digits(n / 10)
    }
}

/// A positive number with `d` digits lies between ten to the `d - 1` and ten
/// to the `d`.
pub proof fn lemma_n_digits_bounds(n: nat)
    requires
        n >= 1,
    ensures
        n_digits(n) >= 1,
        pow10((n_digits(n) - 1) as nat) <= n < pow10(n_digits(n)),
    decreases n,
{
    lemma_pow10_values();
    if n < 10 {
    } else {
        let m = n / 10;
        assert(m >= 1) by {
            lemma_div_is_ordered(10, n as int, 10);
        }
        lemma_n_digits_bounds(m);
        let d = n_digits(m);
        lemma_fundamental_div_mod(n as int, 10);
        assert(n == 10 * m + n % 10);
        assert(pow10(d) == 10 * pow10((d - 1) as nat)) by {
            lemma_pow10_adds(1, (d - 1) as nat);
        }
        assert(10 * pow10((d - 1) as nat) <= 10 * m) by {
            lemma_mul_inequality(pow10((d - 1) as nat) as int, m as int, 10);
        }
        assert(pow10(d + 1) == 10 * pow10(d)) by {
            lemma_pow10_adds(1, d);
        }
        assert(m + 1 <= pow10(d));
        assert(10 * (m + 1) <= 10 * pow10(d)) by {
            lemma_mul_inequality(m as int + 1, pow10(d) as int, 10);
        }
        assert(n < 10 * (m + 1));
    }
}

/// The digit count is determined by any bracketing pair of powers of ten.
pub proof fn lemma_n_digits_from_bounds(n: nat, k: nat)
    requires
        pow10(k) <= n < pow10(k + 1),
    ensures
        n_digits(n) == k + 1,
{
    lemma_pow10_pos(k);
    lemma_n_digits_bounds(n);
    let d = n_digits(n);
    if d < k + 1 {
        lemma_pow10_increases(d, k);
        assert(n < pow10(d));
        assert(pow10(d) <= pow10(k));
        assert(false);
    }
    if d > k + 1 {
        lemma_pow10_increases(k + 1, (d - 1) as nat);
        assert(pow10((d - 1) as nat) <= n);
        assert(false);
    }
}

/// Counts the decimal digits of `n`.
pub fn digit_count(n: u64) -> (c: u32)
    ensures
        c as nat == n_digits(n as nat),
        1 <= c <= 20,
{
    proof {
        lemma_n_digits_upper(n as nat);
    }
    let mut rest: u64 = n;
    let mut c: u32 = 1;
    while rest >= 10
        invariant
            c >= 1,
            n_digits(n as nat) == n_digits(rest as nat) + c - 1,
            n_digits(rest as nat) + c - 1 <= 20,
        decreases rest,
    {
        proof {
            lemma_div_is_ordered(10, rest as int, 10);
            assert(n_digits(rest as nat) == 1 + n_digits(rest as nat / 10));
            lemma_n_digits_upper(rest as nat);
        }
        rest = rest / 10;
        c = c + 1;
    }
    c
}

/// A `u64` never has more than twenty decimal digits.
pub proof fn lemma_n_digits_upper(n: nat)
    requires
        n <= u64::MAX,
    ensures
        n_digits(n) <= 20,
{
    if n >= 1 {
        lemma_n_digits_bounds(n);
        let d = n_digits(n);
        if d > 20 {
            lemma_pow10_values();
            lemma_pow10_increases(20, (d - 1) as nat);
            assert(pow10(20) == pow10(19) * pow10(1)) by {
                lemma_pow10_adds(19, 1);
            }
            assert(false);
        }
    }
}

/// The decade of a quantity held in units: the floor of the base-ten
/// logarithm of `u / SCALE`.
pub open spec fn dec_of(u: nat) -> int {
    n_digits(u) - 7
}

/// The first significant figure of a quantity held in units, normalized into
/// `[1, 10)` — that is, into `[SCALE, 10 * SCALE)` in units. Zero maps to
/// zero.
pub open spec fn fsf_u(u: nat) -> nat {
    if u == 0 {
        0
    } else if n_digits(u) >= 7 {
        u / pow10((n_digits(u) - 7) as nat)
    } else {
        u * pow10((7 - n_digits(u)) as nat)
    }
}

/// Dividing a `d`-digit number by ten to the `k` leaves `d - k` digits, for
/// `k < d`; the result is the number formed by the leading `d - k` digits.
pub proof fn lemma_div_pow10_digits(n: nat, k: nat)
    requires
        n >= 1,
        k < n_digits(n),
    ensures
        n / pow10(k) >= 1,
        n_digits(n / pow10(k)) == n_digits(n) - k,
{
    lemma_pow10_pos(k);
    lemma_n_digits_bounds(n);
    let d = n_digits(n);
    let q = n / pow10(k);
    assert(pow10((d - 1) as nat) == pow10((d - 1 - k) as nat) * pow10(k)) by {
        lemma_pow10_adds((d - 1 - k) as nat, k);
    }
    assert(pow10((d - 1) as nat) as int / pow10(k) as int == pow10((d - 1 - k) as nat) as int) by {
        lemma_div_by_multiple(pow10((d - 1 - k) as nat) as int, pow10(k) as int);
    }
    assert(pow10((d - 1 - k) as nat) <= q) by {
        lemma_div_is_ordered(pow10((d - 1) as nat) as int, n as int, pow10(k) as int);
    }
    lemma_pow10_pos((d - 1 - k) as nat);
    assert(pow10(d) == pow10((d - k) as nat) * pow10(k)) by {
        lemma_pow10_adds((d - k) as nat, k);
    }
    assert(q < pow10((d - k) as nat)) by {
        if q >= pow10((d - k) as nat) {
            lemma_fundamental_div_mod(n as int, pow10(k) as int);
            assert(n as int == pow10(k) as int * q + (n as int) % (pow10(k) as int));
            assert(0 <= (n as int) % (pow10(k) as int)) by {
                vstd::arithmetic::div_mod::lemma_mod_division_less_than_divisor(
                    n as int,
                    pow10(k) as int,
                );
            }
            assert(pow10((d - k) as nat) * pow10(k) <= q * pow10(k)) by {
                lemma_mul_inequality(
                    pow10((d - k) as nat) as int,
                    q as int,
                    pow10(k) as int,
                );
            }
            assert(pow10(d) as int <= q * pow10(k));
            assert(n as int >= pow10(k) as int * q);
            assert(false);
        }
    }
    lemma_n_digits_from_bounds(q, (d - 1 - k) as nat);
}

/// Multiplying a `d`-digit number by ten to the `k` gives `d + k` digits.
pub proof fn lemma_mul_pow10_digits(n: nat, k: nat)
    requires
        n >= 1,
    ensures
        n * pow10(k) >= 1,
        n_digits(n * pow10(k)) == n_digits(n) + k,
{
    lemma_pow10_pos(k);
    lemma_n_digits_bounds(n);
    let d = n_digits(n);
    assert(pow10((d - 1) as nat) * pow10(k) <= n * pow10(k)) by {
        lemma_mul_inequality(pow10((d - 1) as nat) as int, n as int, pow10(k) as int);
    }
    assert(n * pow10(k) < pow10(d) * pow10(k)) by {
        lemma_mul_strict_inequality(n as int, pow10(d) as int, pow10(k) as int);
    }
    assert(pow10((d - 1) as nat) * pow10(k) == pow10((d - 1 + k) as nat)) by {
        lemma_pow10_adds((d - 1) as nat, k);
    }
    assert(pow10(d) * pow10(k) == pow10((d + k) as nat)) by {
        lemma_pow10_adds(d, k);
    }
    assert(1 * 1 <= n * pow10(k)) by {
        lemma_mul_inequality(1, n as int, 1);
        lemma_mul_inequality(1, pow10(k) as int, n as int);
    }
    lemma_n_digits_from_bounds(n * pow10(k), (d - 1 + k) as nat);
}

/// The first significant figure always lands in `[SCALE, 10 * SCALE)`.
pub proof fn lemma_fsf_range(u: nat)
    requires
        u >= 1,
    ensures
        SCALE <= fsf_u(u) < 10 * SCALE,
        n_digits(fsf_u(u)) == 7,
{
    lemma_pow10_values();
    let d = n_digits(u);
    lemma_n_digits_bounds(u);
    if d >= 7 {
        lemma_div_pow10_digits(u, (d - 7) as nat);
        lemma_n_digits_bounds(fsf_u(u));
    } else {
        lemma_mul_pow10_digits(u, (7 - d) as nat);
        lemma_n_digits_bounds(fsf_u(u));
    }
}

/// A quantity already in `[SCALE, 10 * SCALE)` is its own first significant
/// figure.
pub proof fn lemma_fsf_id(u: nat)
    requires
        SCALE <= u < 10 * SCALE,
    ensures
        fsf_u(u) == u,
        n_digits(u) == 7,
{
    lemma_pow10_values();
    lemma_n_digits_from_bounds(u, 6);
    assert(u / pow10(0) == u) by {
        lemma_pow10_values();
    }
}

/// Executable first significant figure over units; `get_first_significant_figure`
/// of the value model.
pub fn get_first_significant_figure(u: u64) -> (r: u64)
    ensures
        r as nat == fsf_u(u as nat),
{
    if u == 0 {
        return 0;
    }
    let c = digit_count(u);
    proof {
        lemma_pow10_values();
        lemma_fsf_range(u as nat);
    }
    if c >= 7 {
        let p = pow10_u64(c - 7);
        proof {
            lemma_pow10_pos((c - 7) as nat);
        }
        u / p
    } else {
        let p = pow10_u64(7 - c);
        proof {
            lemma_n_digits_bounds(u as nat);
            lemma_pow10_increases(c as nat, 6);
            lemma_pow10_increases((7 - c) as nat, 6);
            lemma_mul_strict_inequality(
                u as int,
                pow10(c as nat) as int,
                pow10((7 - c) as nat) as int,
            );
            lemma_pow10_adds(c as nat, (7 - c) as nat);
        }
        u * p
    }
}

/// Truncation of a units quantity to two decimal fraction digits.
pub open spec fn round2(u: nat) -> nat {
    (u / 10_000) * 10_000
}

/// Truncates a mantissa to two decimal fraction digits, the precision kept
/// when a product's mantissa is rendered.
pub fn round_to_order(u: u64) -> (r: u64)
    ensures
        r as nat == round2(u as nat),
        r <= u,
{
    proof {
        lemma_fundamental_div_mod(u as int, 10_000);
    }
    (u / 10_000) * 10_000
}

/// The remainder as Rust's `%` computes it: the sign follows the dividend.
pub open spec fn rust_rem(a: int, m: int) -> int {
    if a >= 0 {
        a % m
    } else {
        -((-a) % m)
    }
}

/// Rust-style remainder of an exponent by three, computed with unsigned
/// machine arithmetic.
pub fn rem3_i64(e: i64) -> (r: i64)
    requires
        e > i64::MIN,
    ensures
        r as int == rust_rem(e as int, 3),
        -2 <= r <= 2,
{
    if e >= 0 {
        (e as u64 % 3) as i64
    } else {
        let m = ((-e) as u64) % 3;
        -(m as i64)
    }
}

/// A quantity in units reaches one exactly when its decade is not negative.
pub proof fn lemma_dec_nonneg(u: nat)
    requires
        u >= 1,
    ensures
        dec_of(u) >= 0 <==> u >= SCALE,
{
    lemma_pow10_values();
    lemma_n_digits_bounds(u);
    if u >= SCALE {
        if n_digits(u) < 7 {
            lemma_pow10_increases(n_digits(u), 6);
        }
    } else {
        if n_digits(u) >= 7 {
            lemma_pow10_increases(6, (n_digits(u) - 1) as nat);
        }
    }
}

/// Tells whether a signed count is treated as a truthy sign: minus one and
/// zero stand for false, everything else for true.
pub fn bool_from_number(number: i32) -> (b: bool)
    ensures
        b == (number != -1 && number != 0),
{
    match number {
        -1 => false,
        0 => false,
        _ => true,
    }
}

/// The signed unit for a sign flag: one for true, minus one for false.
pub fn sign_from_bool(boolean: bool) -> (s: i32)
    ensures
        boolean ==> s == 1,
        !boolean ==> s == -1,
{
    match boolean {
        false => -1,
        true => 1,
    }
}

/// Where `c` falls when the run from `a` to `b` is read backwards: `a` maps
/// to `b`, `b` maps to `a`; anything outside the run maps to zero.
pub open spec fn reverse_number_spec(a: int, b: int, c: int) -> int {
    if a <= c <= b {
        b - (c - a)
    } else {
        0
    }
}

/// Reads position `c` out of the numbers from `a` to `b` laid out in
/// descending order; zero when `c` lies outside them.
pub fn reverse_number(a: i32, b: i32, c: i32) -> (r: i32)
    requires
        b as int - a as int <= i32::MAX as int,
        a as int - c as int <= i32::MAX as int,
        c as int - a as int <= i32::MAX as int,
    ensures
        r as int == reverse_number_spec(a as int, b as int, c as int),
{
    if a <= c && c <= b {
        b - (c - a)
    } else {
        0
    }
}

/// The exponent of the cyclic decade correction: the remainder of `a + b`
/// by three as Rust computes it, with zero promoted to a full step of
/// three.
pub open spec fn cyclic_wrap_spec(a: int, b: int) -> int {
    if rust_rem(a + b, 3) != 0 {
        rust_rem(a + b, 3)
    } else {
        3
    }
}

/// Executable cyclic decade correction exponent.
pub fn cyclic_wrap(a: i64, b: i64) -> (w: i64)
    requires
        i64::MIN < a + b <= i64::MAX,
    ensures
        w as int == cyclic_wrap_spec(a as int, b as int),
        -2 <= w <= 3,
{
    let m = rem3_i64(a + b);
    if m != 0 {
        m
    } else {
        3
    }
}

/// The decade offset between two quantities folded into a three-wide cycle:
/// the remainder of the decade difference by three, mapped onto zero, one or
/// minus one.
pub open spec fn exponential_modulo_ten_spec(da: int, db: int) -> int {
    let m = rust_rem(da - db, 3);
    if m == 0 {
        0
    } else if m == 1 {
        1
    } else {
        -1
    }
}

/// Executable three-wide decade offset of two decades.
pub fn exponential_modulo_ten(da: i64, db: i64) -> (r: i64)
    requires
        i64::MIN < da - db <= i64::MAX,
    ensures
        r as int == exponential_modulo_ten_spec(da as int, db as int),
        -1 <= r <= 1,
{
    let m = rem3_i64(da - db);
    if m == 0 {
        0
    } else if m == 1 {
        1
    } else {
        -1
    }
}

} // verus!
