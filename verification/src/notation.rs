//! The two textual notations.
//!
//! *Haven* text is a numeral followed by one abbreviation out of a fixed
//! table, each step of which stands for three decades. *Scientific* text is
//! `mantissa x10^exponent`. Each notation recovers an exponent and a
//! multiplier from text, and renders canonical text from a mantissa and an
//! exponent.

use vstd::prelude::*;
use vstd::string::StringExecFns;
use vstd::string::StrSliceExecFns;
use crate::arith::SCALE;
use crate::arith::pow10;
use crate::arith::dec_of;
use crate::arith::fsf_u;
use crate::arith::rust_rem;
use crate::arith::cyclic_wrap_spec;
use crate::arith::cyclic_wrap;
use crate::arith::reverse_number_spec;
use crate::arith::reverse_number;
use crate::arith::rem3_i64;
use crate::arith::pow10_u64;
use crate::arith::get_first_significant_figure;
use crate::arith::lemma_pow10_values;
use crate::arith::lemma_pow10_pos;
use crate::arith::lemma_fsf_range;
use crate::arith::lemma_dec_nonneg;
use crate::digits::numeral_valid;
use crate::digits::numeral_units;
use crate::digits::numeral_text;
use crate::digits::int_text;
use crate::digits::digits_val;
use crate::digits::prefix_numlike_len;
use crate::digits::suffix_alpha_len;
use crate::digits::suffix_digit_len;
use crate::digits::scan_numeral;
use crate::digits::scan_numlike_fwd;
use crate::digits::scan_alpha_back;
use crate::digits::scan_digits_back;
use crate::digits::parse_i32_digits;
use crate::digits::region_eq_str;
use crate::digits::render_units;
use crate::digits::render_int_str;
use crate::digits::lemma_prefix_numlike_len_scan;

verus! {

/// Why a piece of text failed to be read as a value.
#[derive(Debug, Clone, Copy, PartialEq, Eq, Structural)]
pub enum AnalysisErrors {
    /// The leading numeral run is missing or malformed.
    InvalidPrefix,
    /// The alphabetic suffix is not in the abbreviation table.
    InvalidSuffix,
    /// The trailing exponent run is missing, malformed or out of range.
    InvalidExponent,
}

/// A value's cached text, tagged with the notation it is written in.
#[derive(Debug, Clone)]
pub enum Format {
    Haven(String),
    Scientific(String),
}

/// The abbreviation table: each index past zero stands for three more
/// decades; index zero is the empty suffix.
pub open spec fn abbrev_seq(i: int) -> Seq<char> {
    if i == 1 {
        seq!['K']
    } else if i == 2 {
        seq!['M']
    } else if i == 3 {
        seq!['B']
    } else if i == 4 {
        seq!['T']
    } else if i == 5 {
        seq!['Q', 'D']
    } else if i == 6 {
        seq!['Q', 'N']
    } else if i == 7 {
        seq!['S', 'X']
    } else if i == 8 {
        seq!['S', 'P']
    } else {
        Seq::empty()
    }
}

/// The index a suffix occupies in the abbreviation table; zero when it is
/// not there.
pub open spec fn abbrev_index_of(a: Seq<char>) -> int {
    if a == abbrev_seq(1) {
        1
    } else if a == abbrev_seq(2) {
        2
    } else if a == abbrev_seq(3) {
        3
    } else if a == abbrev_seq(4) {
        4
    } else if a == abbrev_seq(5) {
        5
    } else if a == abbrev_seq(6) {
        6
    } else if a == abbrev_seq(7) {
        7
    } else if a == abbrev_seq(8) {
        8
    } else {
        0
    }
}

/// The abbreviation index that a Haven exponent selects: one table step for
/// every three decades, and the empty suffix below zero.
pub open spec fn haven_index(b: int) -> int {
    if b < 0 {
        0
    } else {
        b / 3
    }
}

/// The numeral that Haven text carries for mantissa `a` at exponent `b`:
/// the first significant figure shifted by the exponent's remainder by
/// three. A negative remainder (a negative exponent off the three-step
/// grid) shifts below one.
pub open spec fn haven_numeral_units(a: nat, b: int) -> nat {
    let r = rust_rem(b, 3);
    if r >= 0 {
        fsf_u(a) * pow10(r as nat)
    } else {
        fsf_u(a) / pow10((-r) as nat)
    }
}

/// Canonical Haven text. A product mantissa is written verbatim; any other
/// mantissa is normalized and shifted onto the three-decade grid.
pub open spec fn haven_text(a: nat, b: int, is_product: bool) -> Seq<char> {
    let m = if is_product {
        a
    } else {
        haven_numeral_units(a, b)
    };
    numeral_text(m) + abbrev_seq(haven_index(b))
}

/// Canonical Scientific text: the normalized mantissa, the literal `x10^`,
/// and the exponent with its sign.
pub open spec fn sci_text(a: nat, b: int) -> Seq<char> {
    numeral_text(fsf_u(a)) + seq!['x', '1', '0', '^'] + int_text(b)
}

/// What Haven reads as the exponent of `s`.
///
/// Without a suffix the text must be a numeral of at least one, and the
/// exponent is its decade. With a suffix, the suffix must sit in the table
/// at some index `p`, the rest must be a nonzero numeral, and the exponent
/// is `3 p + 1` less the decade of the numeral wrapped through the
/// descending table of one to three.
pub open spec fn haven_exponent(s: Seq<char>) -> Result<int, AnalysisErrors> {
    let sl = suffix_alpha_len(s) as int;
    let rest = s.take(s.len() - sl);
    let ab = s.skip(s.len() - sl);
    if sl == 0 {
        if numeral_valid(s) && numeral_units(s) >= SCALE {
            Ok(dec_of(numeral_units(s)))
        } else {
            Err(AnalysisErrors::InvalidPrefix)
        }
    } else {
        let p = abbrev_index_of(ab);
        if p == 0 {
            Err(AnalysisErrors::InvalidSuffix)
        } else if numeral_valid(rest) && numeral_units(rest) >= 1 {
            Ok(3 * p - reverse_number_spec(1, 3, dec_of(numeral_units(rest))) + 1)
        } else {
            Err(AnalysisErrors::InvalidPrefix)
        }
    }
}

/// What either notation reads as the multiplier of `s` against exponent
/// `e`: the leading numeral run's value, renormalized through the cyclic
/// decade correction when it reaches a thousand.
pub open spec fn multiplier_of(s: Seq<char>, e: int) -> Result<nat, AnalysisErrors> {
    let run = s.take(prefix_numlike_len(s) as int);
    if numeral_valid(run) {
        let u = numeral_units(run);
        if u < 1000 * (SCALE as nat) {
            Ok(u)
        } else {
            let w = cyclic_wrap_spec(dec_of(u), e);
            if w >= 0 {
                Ok(fsf_u(u) * pow10(w as nat))
            } else {
                Ok(fsf_u(u) / pow10((-w) as nat))
            }
        }
    } else {
        Err(AnalysisErrors::InvalidPrefix)
    }
}

/// What Scientific reads as the exponent of `s`: the value of the trailing
/// digit run, which must be there and fit a signed 32-bit word.
pub open spec fn sci_exponent(s: Seq<char>) -> Result<int, AnalysisErrors> {
    let dl = suffix_digit_len(s) as int;
    if dl == 0 {
        Err(AnalysisErrors::InvalidExponent)
    } else if digits_val(s.skip(s.len() - dl)) <= i32::MAX {
        Ok(digits_val(s.skip(s.len() - dl)) as int)
    } else {
        Err(AnalysisErrors::InvalidExponent)
    }
}

/// The canonical text of a quantity below a thousand, continued by
/// anything that does not begin with a digit or a dot, is short up to that
/// tail, and its leading numeral run parses back to exactly that quantity
/// whatever exponent stands beside it.
pub proof fn lemma_numeral_with_tail_parse(m: nat, tail: Seq<char>, e: int)
    requires
        m < 1000 * (SCALE as nat),
        tail.len() > 0 ==> !(crate::digits::is_digit(tail[0]) || tail[0] == '.'),
    ensures
        multiplier_of(numeral_text(m) + tail, e) == Ok::<nat, AnalysisErrors>(m),
        numeral_text(m).len() <= 10,
{
    crate::arith::lemma_pow10_values();
    crate::digits::lemma_numeral_text_props(m);
    let nt = numeral_text(m);
    let t = nt + tail;
    assert(nt.len() <= 10) by {
        let ip = m / (SCALE as nat);
        assert(ip < 1000);
        assert(crate::arith::n_digits(ip) <= 3) by {
            if crate::arith::n_digits(ip) >= 4 {
                crate::arith::lemma_n_digits_bounds(ip);
                crate::arith::lemma_pow10_increases(3, (crate::arith::n_digits(ip) - 1) as nat);
                assert(false);
            }
        }
        if m % (SCALE as nat) == 0 {
            crate::digits::lemma_render_nat_props(ip);
        } else {
            crate::digits::lemma_render_nat_props(ip);
            crate::digits::lemma_tz6(m % (SCALE as nat));
            crate::digits::lemma_pad_digits_props(
                (m % (SCALE as nat)) / pow10(crate::digits::tz6(m % (SCALE as nat))),
                (6 - crate::digits::tz6(m % (SCALE as nat))) as nat,
            );
        }
    }
    assert(prefix_numlike_len(t) == nt.len()) by {
        assert(forall|k: int| 0 <= k < nt.len() ==> t[k] == nt[k]);
        assert(forall|k: int|
            0 <= k < nt.len() ==> crate::digits::is_digit(#[trigger] t[k]) || t[k] == '.');
        if nt.len() < t.len() {
            assert(t[nt.len() as int] == tail[0]);
        }
        crate::digits::lemma_prefix_numlike_len_scan(t, nt.len() as int);
    }
    assert(t.take(nt.len() as int) =~= nt);
}

/// The canonical text of a quantity below a thousand, with any table
/// suffix appended, parses back to exactly that quantity whatever exponent
/// stands beside it.
pub proof fn lemma_numeral_with_suffix_parse(m: nat, i: int, e: int)
    requires
        m < 1000 * (SCALE as nat),
    ensures
        multiplier_of(numeral_text(m) + abbrev_seq(i), e) == Ok::<nat, AnalysisErrors>(m),
        (numeral_text(m) + abbrev_seq(i)).len() <= 12,
{
    lemma_numeral_with_tail_parse(m, abbrev_seq(i), e);
    assert(abbrev_seq(i).len() <= 2);
}

/// One abbreviation out of the table.
pub fn abbrev_str(i: u64) -> (r: &'static str)
    requires
        i <= 8,
    ensures
        r@ == abbrev_seq(i as int),
{
    proof {
        reveal_strlit("");
        reveal_strlit("K");
        reveal_strlit("M");
        reveal_strlit("B");
        reveal_strlit("T");
        reveal_strlit("QD");
        reveal_strlit("QN");
        reveal_strlit("SX");
        reveal_strlit("SP");
    }
    let r: &str = if i == 1 {
        "K"
    } else if i == 2 {
        "M"
    } else if i == 3 {
        "B"
    } else if i == 4 {
        "T"
    } else if i == 5 {
        "QD"
    } else if i == 6 {
        "QN"
    } else if i == 7 {
        "SX"
    } else if i == 8 {
        "SP"
    } else {
        ""
    };
    proof {
        assert(r@ =~= abbrev_seq(i as int));
    }
    r
}

/// Looks the region `[j, len)` of `s` up in the abbreviation table.
pub fn find_abbrev(s: &str, j: usize) -> (p: u64)
    requires
        j <= s@.len(),
    ensures
        p as int == abbrev_index_of(s@.skip(j as int)),
        p <= 8,
{
    let n = s.unicode_len();
    proof {
        assert(s@.skip(j as int) =~= s@.subrange(j as int, n as int));
        reveal_strlit("K");
        reveal_strlit("M");
        reveal_strlit("B");
        reveal_strlit("T");
        reveal_strlit("QD");
        reveal_strlit("QN");
        reveal_strlit("SX");
        reveal_strlit("SP");
        assert("K"@ =~= abbrev_seq(1));
        assert("M"@ =~= abbrev_seq(2));
        assert("B"@ =~= abbrev_seq(3));
        assert("T"@ =~= abbrev_seq(4));
        assert("QD"@ =~= abbrev_seq(5));
        assert("QN"@ =~= abbrev_seq(6));
        assert("SX"@ =~= abbrev_seq(7));
        assert("SP"@ =~= abbrev_seq(8));
    }
    if region_eq_str(s, j, n, "K") {
        1
    } else if region_eq_str(s, j, n, "M") {
        2
    } else if region_eq_str(s, j, n, "B") {
        3
    } else if region_eq_str(s, j, n, "T") {
        4
    } else if region_eq_str(s, j, n, "QD") {
        5
    } else if region_eq_str(s, j, n, "QN") {
        6
    } else if region_eq_str(s, j, n, "SX") {
        7
    } else if region_eq_str(s, j, n, "SP") {
        8
    } else {
        0
    }
}

/// The abbreviation-suffixed notation.
pub struct Haven;

/// The `mantissa x10^exponent` notation.
pub struct Scientific;

impl Haven {
    /// Reads the exponent that Haven text denotes.
    pub fn get_exponent(x: String) -> (r: Result<i32, AnalysisErrors>)
        requires
            x@.len() < 0x4000_0000,
        ensures
            ({
                let m = haven_exponent(x@);
                match r {
                    Ok(v) => m is Ok && v as int == m->Ok_0,
                    Err(e) => m is Err && e == m->Err_0,
                }
            }),
    {
        let s = x.as_str();
        let n = s.unicode_len();
        let j = scan_alpha_back(s);
        if j == n {
            let sc = scan_numeral(s, 0, n);
            proof {
                assert(s@.subrange(0, n as int) =~= s@);
            }
            if !sc.valid || sc.zero {
                return Err(AnalysisErrors::InvalidPrefix);
            }
            proof {
                lemma_dec_nonneg(numeral_units(s@));
            }
            if sc.dec < 0 {
                return Err(AnalysisErrors::InvalidPrefix);
            }
            Ok(sc.dec as i32)
        } else {
            let p = find_abbrev(s, j);
            if p == 0 {
                return Err(AnalysisErrors::InvalidSuffix);
            }
            let sc = scan_numeral(s, 0, j);
            proof {
                assert(s@.subrange(0, j as int) =~= s@.take(j as int));
            }
            if !sc.valid || sc.zero {
                return Err(AnalysisErrors::InvalidPrefix);
            }
            let w = reverse_number(1, 3, sc.dec as i32);
            Ok(3 * (p as i32) - w + 1)
        }
    }

    /// Reads the multiplier out of the leading numeral run of Haven text.
    pub fn get_multiplier(x: String, exponent: i32) -> (r: Result<u64, AnalysisErrors>)
        requires
            x@.len() < 0x4000_0000,
        ensures
            ({
                let m = multiplier_of(x@, exponent as int);
                match r {
                    Ok(v) => m is Ok && v as nat == m->Ok_0,
                    Err(e) => m is Err && e == m->Err_0,
                }
            }),
    {
        let s = x.as_str();
        let n = s.unicode_len();
        let le = scan_numlike_fwd(s, 0, n);
        proof {
            lemma_prefix_numlike_len_scan(s@, le as int);
            assert(s@.subrange(0, le as int) =~= s@.take(le as int));
        }
        let sc = scan_numeral(s, 0, le);
        if !sc.valid {
            return Err(AnalysisErrors::InvalidPrefix);
        }
        match sc.low {
            Option::Some(u) => Ok(u),
            Option::None => {
                let ghost units = numeral_units(s@.take(le as int));
                proof {
                    lemma_pow10_values();
                    lemma_fsf_range(units);
                }
                let w = cyclic_wrap(sc.dec, exponent as i64);
                if w >= 0 {
                    let f = pow10_u64(w as u32);
                    proof {
                        crate::arith::lemma_pow10_increases(w as nat, 3);
                        assert((sc.fsf as int) * (f as int) <= 10_000_000 * 1000) by {
                            vstd::arithmetic::mul::lemma_mul_upper_bound(
                                sc.fsf as int,
                                10_000_000,
                                f as int,
                                1000,
                            );
                        }
                    }
                    Ok(sc.fsf * f)
                } else {
                    let f = pow10_u64((-w) as u32);
                    proof {
                        lemma_pow10_pos((-w) as nat);
                    }
                    Ok(sc.fsf / f)
                }
            },
        }
    }

    /// Renders Haven text for mantissa `a` (in units) at exponent `b`.
    pub fn create(a: u64, b: i32, is_product: bool) -> (r: String)
        requires
            b <= 26,
        ensures
            r@ == haven_text(a as nat, b as int, is_product),
    {
        let idx: u64 = if b < 0 {
            0
        } else {
            (b as u64) / 3
        };
        let m: u64;
        if is_product {
            m = a;
        } else {
            let rm = rem3_i64(b as i64);
            let f = get_first_significant_figure(a);
            proof {
                lemma_pow10_values();
                if a > 0 {
                    lemma_fsf_range(a as nat);
                }
            }
            if rm >= 0 {
                let p = pow10_u64(rm as u32);
                proof {
                    crate::arith::lemma_pow10_increases(rm as nat, 2);
                    assert((f as int) * (p as int) <= 10_000_000 * 100) by {
                        vstd::arithmetic::mul::lemma_mul_upper_bound(
                            f as int,
                            10_000_000,
                            p as int,
                            100,
                        );
                    }
                }
                m = f * p;
            } else {
                let p = pow10_u64((-rm) as u32);
                proof {
                    lemma_pow10_pos((-rm) as nat);
                }
                m = f / p;
            }
        }
        let mut s = render_units(m);
        let suf = abbrev_str(idx);
        s.append(suf);
        proof {
            assert(s@ =~= haven_text(a as nat, b as int, is_product));
        }
        s
    }
}

impl Scientific {
    /// Reads the exponent off the end of Scientific text.
    pub fn get_exponent(x: String) -> (r: Result<i32, AnalysisErrors>)
        ensures
            ({
                let m = sci_exponent(x@);
                match r {
                    Ok(v) => m is Ok && v as int == m->Ok_0,
                    Err(e) => m is Err && e == m->Err_0,
                }
            }),
    {
        let s = x.as_str();
        let n = s.unicode_len();
        let j = scan_digits_back(s);
        if j == n {
            return Err(AnalysisErrors::InvalidExponent);
        }
        proof {
            assert(s@.skip(j as int) =~= s@.subrange(j as int, n as int));
        }
        match parse_i32_digits(s, j, n) {
            Option::Some(v) => Ok(v),
            Option::None => Err(AnalysisErrors::InvalidExponent),
        }
    }

    /// Reads the multiplier of Scientific text: the same leading numeral
    /// run that Haven reads.
    pub fn get_multiplier(x: String, exponent: i32) -> (r: Result<u64, AnalysisErrors>)
        requires
            x@.len() < 0x4000_0000,
        ensures
            ({
                let m = multiplier_of(x@, exponent as int);
                match r {
                    Ok(v) => m is Ok && v as nat == m->Ok_0,
                    Err(e) => m is Err && e == m->Err_0,
                }
            }),
    {
        Haven::get_multiplier(x, exponent)
    }

    /// Renders Scientific text for mantissa `a` (in units) at exponent `b`.
    pub fn create(a: u64, b: i32, _is_product: bool) -> (r: String)
        ensures
            r@ == sci_text(a as nat, b as int),
    {
        proof {
            reveal_strlit("x10^");
        }
        let f = get_first_significant_figure(a);
        let mut s = render_units(f);
        s.append("x10^");
        let e = render_int_str(b as i64);
        s.append(e.as_str());
        proof {
            assert(s@ =~= sci_text(a as nat, b as int));
        }
        s
    }
}

} // verus!
