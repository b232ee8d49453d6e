//! The value type: a sign, a normalized fixed-point mantissa, a decimal
//! exponent, and cached canonical text in one of the two notations, together
//! with construction, rescaling, comparison and the arithmetic operators.

use vstd::prelude::*;
use vstd::string::StringExecFns;
use crate::arith::SCALE;
use crate::arith::pow10;
use crate::arith::n_digits;
use crate::arith::dec_of;
use crate::arith::fsf_u;
use crate::arith::round2;
use crate::arith::rust_rem;
use crate::arith::pow10_u64;
use crate::arith::digit_count;
use crate::arith::get_first_significant_figure;
use crate::arith::bool_from_number;
use crate::arith::sign_from_bool;
use crate::arith::exponential_modulo_ten;
use crate::arith::exponential_modulo_ten_spec;
use crate::arith::lemma_pow10_values;
use crate::arith::lemma_pow10_pos;
use crate::arith::lemma_pow10_adds;
use crate::arith::lemma_pow10_increases;
use crate::arith::lemma_n_digits_bounds;
use crate::arith::lemma_fsf_range;
use crate::arith::lemma_fsf_id;
use crate::notation::Format;
use crate::notation::AnalysisErrors;
use crate::notation::Haven;
use crate::notation::Scientific;
use crate::notation::haven_text;
use crate::notation::haven_numeral_units;
use crate::notation::sci_text;
use crate::notation::haven_exponent;
use crate::notation::sci_exponent;
use crate::notation::multiplier_of;
use crate::digits::numeral_text;
use crate::digits::render_units;
use crate::digits::render_nat;
use crate::digits::int_text;
use crate::digits::suffix_digit_len;
use crate::digits::suffix_alpha_len;
use crate::digits::lemma_suffix_digit_len_scan;
use crate::digits::lemma_suffix_alpha_len_scan;
use crate::digits::lemma_numeral_text_props;
use crate::digits::lemma_render_nat_props;

verus! {

/// A plain decimal scalar: the value `digits * 10^exp10`, negated when
/// `negative` is set. This is how callers hand a literal magnitude to the
/// library; `7.5` is `{ negative: false, digits: 75, exp10: -1 }`.
#[derive(Debug, Clone, Copy, PartialEq, Eq, Structural)]
pub struct Scalar {
    pub negative: bool,
    pub digits: u64,
    pub exp10: i32,
}

/// The decade of a scalar: the floor of the base-ten logarithm of its
/// magnitude.
pub open spec fn scalar_dec(s: Scalar) -> int {
    n_digits(s.digits as nat) + s.exp10 - 1
}

/// What building a value from the scalar `s` yields: zero becomes the
/// dedicated zero; otherwise the sign carries over, the exponent is the
/// scalar's decade, the mantissa keeps the full fixed-point value inside
/// `[1, 10)` and is normalized to the first significant figure elsewhere,
/// and the value is in Haven notation exactly when the decade lies within
/// the abbreviation table.
pub open spec fn scalar_post(s: Scalar, r: BigNumber) -> bool {
    &&& (s.digits == 0 ==> r.is_zero())
    &&& (s.digits >= 1 ==> {
        &&& !r.is_zero()
        &&& r.sign() == !s.negative
        &&& r.exp() == scalar_dec(s)
        &&& r.is_haven() == (0 <= scalar_dec(s) <= 24)
        &&& (scalar_dec(s) == 0 ==> r.base_units() == (s.digits as nat * (SCALE as nat))
            / pow10((-s.exp10) as nat))
        &&& (scalar_dec(s) != 0 ==> r.base_units() == fsf_u(s.digits as nat))
        &&& (r.is_haven() ==> r.text() == haven_text(r.base_units(), r.exp(), false))
        &&& (!r.is_haven() ==> r.text() == sci_text(r.base_units(), r.exp()))
    })
}

/// A magnitude spanning arbitrary decades: a normalized mantissa (held in
/// fixed-point units), a decimal exponent, a sign, and the canonical text
/// the value renders to in its current notation.
#[derive(Debug, Clone)]
pub struct BigNumber {
    serialized: Format,
    base: u64,
    exponent: i32,
    is_positive: bool,
}

impl BigNumber {
    /// The mantissa, in units: the value's significand times `SCALE`.
    pub closed spec fn base_units(self) -> nat {
        self.base as nat
    }

    /// The decimal exponent.
    pub closed spec fn exp(self) -> int {
        self.exponent as int
    }

    /// The sign: true means non-negative.
    pub closed spec fn sign(self) -> bool {
        self.is_positive
    }

    /// Whether the cached text is in Haven notation.
    pub closed spec fn is_haven(self) -> bool {
        self.serialized is Haven
    }

    /// The cached canonical text.
    pub closed spec fn text(self) -> Seq<char> {
        match self.serialized {
            Format::Haven(s) => s@,
            Format::Scientific(s) => s@,
        }
    }

    /// Whether this is the dedicated zero representation.
    pub open spec fn is_zero(self) -> bool {
        self.base_units() == 0
    }

    /// Well-formedness: zero is the dedicated representation; any other
    /// value has its mantissa normalized into `[1, 10)`, keeps Haven
    /// notation only within the abbreviation table's ceiling, and caches
    /// exactly the text its fields render to — either the plain rendering,
    /// or, after a multiplication, the product mantissa written verbatim
    /// with two fraction digits.
    pub open spec fn wf(self) -> bool {
        if self.is_zero() {
            &&& self.exp() == 0
            &&& self.sign()
            &&& self.is_haven()
            &&& self.text() == "0.0"@
        } else {
            &&& (SCALE as nat) <= self.base_units() < 10 * (SCALE as nat)
            &&& (self.is_haven() ==> self.exp() <= 24)
            &&& (self.is_haven() ==> (self.text() == haven_text(
                self.base_units(),
                self.exp(),
                false,
            ) || (exists|m: nat|
                #![auto]
                (SCALE as nat) <= m < 1000 * (SCALE as nat) && self.base_units() == fsf_u(m)
                    && self.text() == haven_text(round2(m), self.exp(), true))))
            &&& (!self.is_haven() ==> self.text() == sci_text(self.base_units(), self.exp()))
        }
    }

    /// The dedicated zero value.
    fn make_zero() -> (r: BigNumber)
        ensures
            r.wf(),
            r.is_zero(),
            r.sign(),
            r.exp() == 0,
            r.is_haven(),
    {
        proof {
            reveal_strlit("0.0");
        }
        BigNumber {
            serialized: Format::Haven(String::from_str("0.0")),
            base: 0,
            exponent: 0,
            is_positive: true,
        }
    }

    /// The cached canonical text of the value.
    pub fn get_value(&self) -> (r: String)
        ensures
            r@ == self.text(),
    {
        match &self.serialized {
            Format::Haven(x) => x.clone(),
            Format::Scientific(x) => x.clone(),
        }
    }

    /// The decimal exponent of the value.
    pub fn exponent(&self) -> (r: i32)
        ensures
            r as int == self.exp(),
    {
        self.exponent
    }

    /// The mantissa of the value, in units.
    pub fn base_in_units(&self) -> (r: u64)
        ensures
            r as nat == self.base_units(),
    {
        self.base
    }

    /// The sign of the value; true means non-negative.
    pub fn is_positive(&self) -> (r: bool)
        ensures
            r == self.sign(),
    {
        self.is_positive
    }

    /// Whether the value currently renders in Haven notation.
    pub fn is_haven_format(&self) -> (r: bool)
        ensures
            r == self.is_haven(),
    {
        match &self.serialized {
            Format::Haven(_) => true,
            Format::Scientific(_) => false,
        }
    }

    /// Builds a value from a plain decimal scalar.
    ///
    /// Zero becomes the dedicated zero. A magnitude below one goes straight
    /// to Scientific notation at its (negative) decade. A magnitude in
    /// `[1, 10)` becomes a Haven literal decimal at exponent zero, keeping
    /// every fraction digit the fixed point can hold. Anything larger is
    /// normalized to its first significant figure at its decade, in Haven
    /// notation up to the table ceiling and in Scientific beyond it.
    pub fn new_d(deserialized: Scalar) -> (r: BigNumber)
        requires
            i32::MIN + 30 < deserialized.exp10 < i32::MAX - 30,
        ensures
            r.wf(),
            scalar_post(deserialized, r),
    {
        if deserialized.digits == 0 {
            return Self::make_zero();
        }
        let d = deserialized.digits;
        let c = digit_count(d);
        let dec: i64 = (c as i64) - 1 + (deserialized.exp10 as i64);
        let f = get_first_significant_figure(d);
        proof {
            lemma_pow10_values();
            lemma_fsf_range(d as nat);
            lemma_n_digits_bounds(d as nat);
        }
        if dec < 0 {
            let text = Scientific::create(f, dec as i32, false);
            proof {
                lemma_fsf_id(f as nat);
            }
            BigNumber {
                serialized: Format::Scientific(text),
                base: f,
                exponent: dec as i32,
                is_positive: !deserialized.negative,
            }
        } else if dec == 0 {
            // a magnitude in [1, 10): keep the full fixed-point value
            let e = (-(deserialized.exp10 as i64)) as u32;
            proof {
                assert(e == c - 1);
                lemma_pow10_increases((c - 1) as nat, 19);
            }
            let p = pow10_u64(e);
            let wide: u128 = (d as u128) * (SCALE as u128);
            let units: u64 = (wide / (p as u128)) as u64;
            proof {
                lemma_units_of_unit_scalar(d as nat, (c - 1) as nat);
                assert(wide as nat == d as nat * (SCALE as nat));
                assert(units as nat == (d as nat * (SCALE as nat)) / pow10((c - 1) as nat));
            }
            let text = render_units(units);
            proof {
                lemma_fsf_id(units as nat);
                assert(rust_rem(0, 3) == 0);
                assert(haven_numeral_units(units as nat, 0) == units as nat) by {
                    vstd::arithmetic::mul::lemma_mul_basics(units as int);
                    assert(fsf_u(units as nat) * pow10(0) == units as nat);
                }
                assert(numeral_text(units as nat) + crate::notation::abbrev_seq(0)
                    =~= numeral_text(units as nat));
            }
            BigNumber {
                serialized: Format::Haven(text),
                base: units,
                exponent: 0,
                is_positive: !deserialized.negative,
            }
        } else if dec <= 24 {
            let text = Haven::create(f, dec as i32, false);
            proof {
                lemma_fsf_id(f as nat);
            }
            BigNumber {
                serialized: Format::Haven(text),
                base: f,
                exponent: dec as i32,
                is_positive: !deserialized.negative,
            }
        } else {
            let text = Scientific::create(f, dec as i32, false);
            proof {
                lemma_fsf_id(f as nat);
            }
            BigNumber {
                serialized: Format::Scientific(text),
                base: f,
                exponent: dec as i32,
                is_positive: !deserialized.negative,
            }
        }
    }
}

/// For a scalar whose magnitude lies in `[1, 10)` — `digits` with one more
/// digit than the fraction shift — the fixed-point value keeps between one
/// and ten in units.
proof fn lemma_units_of_unit_scalar(d: nat, e: nat)
    requires
        d >= 1,
        n_digits(d) == e + 1,
    ensures
        (SCALE as nat) <= (d * (SCALE as nat)) / pow10(e) < 10 * (SCALE as nat),
    decreases 0nat,
{
    lemma_pow10_values();
    lemma_n_digits_bounds(d);
    lemma_pow10_pos(e);
    let u = (d * (SCALE as nat)) / pow10(e);
    assert(pow10(e) <= d < pow10(e + 1));
    assert(pow10(e) * (SCALE as nat) <= d * (SCALE as nat)) by {
        vstd::arithmetic::mul::lemma_mul_inequality(
            pow10(e) as int,
            d as int,
            SCALE as int,
        );
    }
    assert(d * (SCALE as nat) < pow10(e + 1) * (SCALE as nat)) by {
        vstd::arithmetic::mul::lemma_mul_strict_inequality(
            d as int,
            pow10(e + 1) as int,
            SCALE as int,
        );
    }
    assert((pow10(e) * (SCALE as nat)) / pow10(e) == SCALE as nat) by {
        vstd::arithmetic::div_mod::lemma_div_by_multiple(SCALE as int, pow10(e) as int);
        vstd::arithmetic::mul::lemma_mul_is_commutative(pow10(e) as int, SCALE as int);
    }
    assert(SCALE as nat <= u) by {
        vstd::arithmetic::div_mod::lemma_div_is_ordered(
            (pow10(e) * (SCALE as nat)) as int,
            (d * (SCALE as nat)) as int,
            pow10(e) as int,
        );
    }
    assert(u < 10 * (SCALE as nat)) by {
        if u >= 10 * (SCALE as nat) {
            vstd::arithmetic::div_mod::lemma_fundamental_div_mod(
                (d * (SCALE as nat)) as int,
                pow10(e) as int,
            );
            vstd::arithmetic::div_mod::lemma_mod_division_less_than_divisor(
                (d * (SCALE as nat)) as int,
                pow10(e) as int,
            );
            assert(pow10(e) * (10 * (SCALE as nat)) <= pow10(e) * u) by {
                vstd::arithmetic::mul::lemma_mul_left_inequality(
                    pow10(e) as int,
                    (10 * (SCALE as nat)) as int,
                    u as int,
                );
            }
            assert(pow10(e + 1) * (SCALE as nat) == pow10(e) * (10 * (SCALE as nat))) by {
                lemma_pow10_adds(e, 1);
                vstd::arithmetic::mul::lemma_mul_is_associative(
                    pow10(e) as int,
                    10,
                    SCALE as int,
                );
            }
            assert(false);
        }
    }
}

impl BigNumber {
    /// Shifts the value by `increment` decades.
    ///
    /// A shift of zero, or any shift of the dedicated zero, changes
    /// nothing. With `is_bounce` set, a shift that would land on a negative
    /// exponent is flipped to its magnitude and the value is forced into
    /// Scientific notation. A value already in Scientific notation stays
    /// there; a Haven value switches to Scientific once the new exponent
    /// leaves the abbreviation table's ceiling. The text is re-rendered for
    /// whichever notation the value settles into; the well-formedness
    /// invariant keeps it consistent with the numeric fields at all times,
    /// so no defensive re-parse of the stored text is needed.
    pub fn increase_power(&mut self, increment: i32, is_bounce: bool) -> (r: Option<bool>)
        requires
            old(self).wf(),
            i32::MIN < old(self).exp() + increment <= i32::MAX,
        ensures
            r == Some(true),
            final(self).wf(),
            increment == 0 || old(self).is_zero() ==> *final(self) == *old(self),
            increment != 0 && !old(self).is_zero() ==> ({
                let sum = old(self).exp() + increment;
                let flip = is_bounce && sum < 0;
                let ne = if flip {
                    -sum
                } else {
                    sum
                };
                &&& final(self).base_units() == old(self).base_units()
                &&& final(self).sign() == old(self).sign()
                &&& final(self).exp() == ne
                &&& final(self).is_haven() == (old(self).is_haven() && !flip && ne <= 24)
                &&& (final(self).is_haven() ==> final(self).text() == haven_text(
                    old(self).base_units(),
                    ne,
                    false,
                ))
                &&& (!final(self).is_haven() ==> final(self).text() == sci_text(
                    old(self).base_units(),
                    ne,
                ))
            }),
    {
        if increment == 0 {
            return Some(true);
        }
        if self.base == 0 {
            return Some(true);
        }
        let sum: i64 = self.exponent as i64 + increment as i64;
        let flip = is_bounce && sum < 0;
        let new_power: i64 = if flip {
            -sum
        } else {
            sum
        };
        let was_haven = match &self.serialized {
            Format::Haven(_) => true,
            Format::Scientific(_) => false,
        };
        self.exponent = new_power as i32;
        if !was_haven || flip || new_power > 24 {
            self.serialized = Format::Scientific(
                Scientific::create(self.base, self.exponent, false),
            );
            proof {
                lemma_fsf_id(self.base as nat);
            }
        } else {
            self.serialized = Format::Haven(Haven::create(self.base, self.exponent, false));
        }
        Some(true)
    }

    /// Shifts the value down by `increment` decades: the same rescale with
    /// the shift negated and no bounce.
    pub fn decrease_power(&mut self, increment: i32) -> (r: Option<bool>)
        requires
            old(self).wf(),
            increment > i32::MIN,
            i32::MIN < old(self).exp() - increment <= i32::MAX,
        ensures
            r == Some(true),
            final(self).wf(),
            increment == 0 || old(self).is_zero() ==> *final(self) == *old(self),
            increment != 0 && !old(self).is_zero() ==> ({
                let ne = old(self).exp() - increment;
                &&& final(self).base_units() == old(self).base_units()
                &&& final(self).sign() == old(self).sign()
                &&& final(self).exp() == ne
                &&& final(self).is_haven() == (old(self).is_haven() && ne <= 24)
                &&& (final(self).is_haven() ==> final(self).text() == haven_text(
                    old(self).base_units(),
                    ne,
                    false,
                ))
                &&& (!final(self).is_haven() ==> final(self).text() == sci_text(
                    old(self).base_units(),
                    ne,
                ))
            }),
    {
        self.increase_power(-increment, false)
    }

    /// The total order of magnitude: exponents first, mantissas to break
    /// the tie. The sign plays no part in it.
    pub open spec fn order_of(self, other: Self) -> core::cmp::Ordering {
        if self.exp() < other.exp() {
            core::cmp::Ordering::Less
        } else if self.exp() > other.exp() {
            core::cmp::Ordering::Greater
        } else if self.base_units() < other.base_units() {
            core::cmp::Ordering::Less
        } else if self.base_units() > other.base_units() {
            core::cmp::Ordering::Greater
        } else {
            core::cmp::Ordering::Equal
        }
    }

    /// The magnitude order as an executable comparison.
    pub fn cmp(&self, other: &Self) -> (r: core::cmp::Ordering)
        ensures
            r == self.order_of(*other),
    {
        if self.exponent < other.exponent {
            core::cmp::Ordering::Less
        } else if self.exponent > other.exponent {
            core::cmp::Ordering::Greater
        } else if self.base < other.base {
            core::cmp::Ordering::Less
        } else if self.base > other.base {
            core::cmp::Ordering::Greater
        } else {
            core::cmp::Ordering::Equal
        }
    }

    /// The greater of the two by magnitude order; on a tie, `other`.
    pub fn max(self, other: Self) -> (r: Self)
        ensures
            self.order_of(other) is Greater ==> r == self,
            !(self.order_of(other) is Greater) ==> r == other,
    {
        match self.cmp(&other) {
            core::cmp::Ordering::Greater => self,
            _ => other,
        }
    }

    /// The lesser of the two by magnitude order; on a tie, `other`.
    pub fn min(self, other: Self) -> (r: Self)
        ensures
            self.order_of(other) is Less ==> r == self,
            !(self.order_of(other) is Less) ==> r == other,
    {
        match self.cmp(&other) {
            core::cmp::Ordering::Less => self,
            _ => other,
        }
    }

    /// This value forced between `min` and `max` by magnitude order.
    pub fn clamp(self, min: Self, max: Self) -> (r: Self)
        ensures
            ({
                let capped = if self.order_of(max) is Less {
                    self
                } else {
                    max
                };
                (if capped.order_of(min) is Greater {
                    capped
                } else {
                    min
                }) == r
            }),
    {
        (self.min(max)).max(min)
    }
}

/// The text a tagged format carries.
pub open spec fn text_of_format(f: Format) -> Seq<char> {
    match f {
        Format::Haven(x) => x@,
        Format::Scientific(x) => x@,
    }
}

/// What parsing text under a notation tag yields: the exponent read by the
/// tag's notation, then the multiplier of the leading numeral run against
/// it. Either failure, or a multiplier of zero (which no mantissa can
/// normalize), yields nothing.
pub open spec fn parse_model_at(haven_tag: bool, t: Seq<char>) -> Option<(int, nat)> {
    let e = if haven_tag {
        haven_exponent(t)
    } else {
        sci_exponent(t)
    };
    match e {
        Result::Err(_) => None,
        Result::Ok(ev) => match multiplier_of(t, ev) {
            Result::Err(_) => None,
            Result::Ok(m) => if m == 0 {
                None
            } else {
                Some((ev, m))
            },
        },
    }
}

/// What parsing tagged text yields.
pub open spec fn parse_model(f: Format) -> Option<(int, nat)> {
    parse_model_at(f is Haven, text_of_format(f))
}

impl BigNumber {
    /// Builds a value by parsing tagged text.
    ///
    /// The notation named by the tag reads the exponent; the multiplier is
    /// read from the leading numeral run. Either failure aborts with no
    /// value. On success the mantissa is the multiplier's first
    /// significant figure, the sign is positive (neither notation encodes
    /// one), and the text is re-rendered canonically — in Haven notation
    /// within the abbreviation table's ceiling, in Scientific beyond it.
    pub fn new(serialized: Format) -> (r: Option<BigNumber>)
        requires
            text_of_format(serialized).len() < 0x4000_0000,
        ensures
            (r is Some) == (parse_model(serialized) is Some),
            r matches Some(v) ==> ({
                let (ev, m) = parse_model(serialized)->Some_0;
                &&& v.wf()
                &&& !v.is_zero()
                &&& v.sign()
                &&& v.base_units() == fsf_u(m)
                &&& v.exp() == ev
                &&& v.is_haven() == (ev <= 24)
                &&& v.text() == (if ev <= 24 {
                    haven_text(m, ev, false)
                } else {
                    sci_text(m, ev)
                })
            }),
    {
        let text = match &serialized {
            Format::Haven(x) => x.clone(),
            Format::Scientific(x) => x.clone(),
        };
        let exponent_r = match &serialized {
            Format::Haven(_) => Haven::get_exponent(text.clone()),
            Format::Scientific(_) => Scientific::get_exponent(text.clone()),
        };
        let ev = match exponent_r {
            Result::Ok(v) => v,
            Result::Err(_) => {
                return None;
            },
        };
        let mult_r = match &serialized {
            Format::Haven(_) => Haven::get_multiplier(text.clone(), ev),
            Format::Scientific(_) => Scientific::get_multiplier(text, ev),
        };
        let m = match mult_r {
            Result::Ok(v) => v,
            Result::Err(_) => {
                return None;
            },
        };
        if m == 0 {
            return None;
        }
        let base = get_first_significant_figure(m);
        proof {
            lemma_fsf_range(m as nat);
            lemma_fsf_id(base as nat);
            assert(haven_numeral_units(m as nat, ev as int) == haven_numeral_units(
                base as nat,
                ev as int,
            ));
        }
        if ev <= 24 {
            let rendered = Haven::create(m, ev, false);
            Some(
                BigNumber {
                    serialized: Format::Haven(rendered),
                    base,
                    exponent: ev,
                    is_positive: true,
                },
            )
        } else {
            let rendered = Scientific::create(m, ev, false);
            Some(
                BigNumber {
                    serialized: Format::Scientific(rendered),
                    base,
                    exponent: ev,
                    is_positive: true,
                },
            )
        }
    }
}

/// The aligned contribution of the smaller operand's mantissa: shifted
/// right by the exponent gap, in units; gone entirely once the gap passes
/// the fixed point's reach.
pub open spec fn aligned_delta(lo_base: nat, gap: int) -> nat {
    if gap >= 8 {
        0
    } else {
        lo_base / pow10(gap as nat)
    }
}

/// The signed sum of the two aligned mantissas, in units, with `hi` the
/// operand of greater magnitude.
pub open spec fn combined_base(hi: BigNumber, lo: BigNumber) -> int {
    (if hi.sign() {
        hi.base_units() as int
    } else {
        -(hi.base_units() as int)
    }) + (if lo.sign() {
        aligned_delta(lo.base_units(), hi.exp() - lo.exp()) as int
    } else {
        -(aligned_delta(lo.base_units(), hi.exp() - lo.exp()) as int)
    })
}

/// What adding two nonzero well-formed values yields. The greater by
/// magnitude order is `hi` (the first operand on a tie); the mantissas are
/// aligned and combined with their signs; exact cancellation gives the
/// dedicated zero; otherwise the result's decade is re-derived from the
/// combined mantissa, the sign follows the combined mantissa, and the value
/// leaves Haven notation when the new exponent passes the table's ceiling.
pub open spec fn add_post(a: BigNumber, b: BigNumber, r: BigNumber) -> bool {
    let hi = if a.order_of(b) is Less {
        b
    } else {
        a
    };
    let lo = if a.order_of(b) is Less {
        a
    } else {
        b
    };
    let nb = combined_base(hi, lo);
    if nb == 0 {
        &&& r.is_zero()
        &&& r.sign()
        &&& r.exp() == 0
    } else {
        let mag = if nb >= 0 {
            nb as nat
        } else {
            (-nb) as nat
        };
        let sh = dec_of(mag);
        let ne = hi.exp() + sh;
        &&& !r.is_zero()
        &&& r.base_units() == fsf_u(mag)
        &&& r.exp() == ne
        &&& r.sign() == (nb > 0)
        &&& r.is_haven() == (if sh == 0 {
            hi.is_haven()
        } else {
            hi.is_haven() && ne <= 24
        })
        &&& (r.is_haven() ==> r.text() == haven_text(fsf_u(mag), ne, false))
        &&& (!r.is_haven() ==> r.text() == sci_text(fsf_u(mag), ne))
    }
}

impl BigNumber {
    /// Adds two values.
    ///
    /// Adding the dedicated zero returns the other operand unchanged.
    /// Otherwise the operands' mantissas are aligned on the greater
    /// exponent, combined with their signs, and the result is renormalized
    /// — its decade re-derived from the combined mantissa, since partial
    /// cancellation can drop it by several and a carry can raise it by one.
    pub fn add(self, other: Self) -> (r: Self)
        requires
            self.wf(),
            other.wf(),
            i32::MIN + 8 < self.exp() < i32::MAX - 8,
            i32::MIN + 8 < other.exp() < i32::MAX - 8,
        ensures
            r.wf(),
            other.is_zero() ==> r == self,
            self.is_zero() && !other.is_zero() ==> r == other,
            !self.is_zero() && !other.is_zero() ==> add_post(self, other, r),
    {
        if other.base == 0 {
            return self;
        }
        if self.base == 0 {
            return other;
        }
        let other_is_hi = match self.cmp(&other) {
            core::cmp::Ordering::Less => true,
            _ => false,
        };
        let (hi, lo) = if other_is_hi {
            (other, self)
        } else {
            (self, other)
        };
        let gap: i64 = hi.exponent as i64 - lo.exponent as i64;
        proof {
            lemma_pow10_values();
        }
        let delta: u64 = if gap >= 8 {
            0
        } else {
            let p = pow10_u64(gap as u32);
            proof {
                lemma_pow10_pos(gap as nat);
            }
            lo.base / p
        };
        let shi: i64 = if hi.is_positive {
            hi.base as i64
        } else {
            -(hi.base as i64)
        };
        let slo: i64 = if lo.is_positive {
            delta as i64
        } else {
            -(delta as i64)
        };
        proof {
            assert(delta <= lo.base) by {
                if gap < 8 {
                    lemma_pow10_pos(gap as nat);
                    vstd::arithmetic::div_mod::lemma_div_nonincreasing(
                        lo.base as int,
                        pow10(gap as nat) as int,
                    );
                }
            }
        }
        let nb: i64 = shi + slo;
        if nb == 0 {
            return Self::make_zero();
        }
        let mag: u64 = if nb < 0 {
            (-nb) as u64
        } else {
            nb as u64
        };
        let c = digit_count(mag);
        proof {
            assert(mag < 100_000_000);
            assert(c <= 8) by {
                lemma_n_digits_bounds(mag as nat);
                if c >= 9 {
                    lemma_pow10_values();
                    lemma_pow10_increases(8, (c - 1) as nat);
                    assert(false);
                }
            }
        }
        let sh: i64 = c as i64 - 7;
        let f = get_first_significant_figure(mag);
        proof {
            lemma_fsf_range(mag as nat);
            lemma_fsf_id(f as nat);
        }
        let ne: i32 = (hi.exponent as i64 + sh) as i32;
        let keep_haven: bool = match &hi.serialized {
            Format::Haven(_) => if sh == 0 {
                true
            } else {
                ne <= 24
            },
            Format::Scientific(_) => false,
        };
        let text = if keep_haven {
            Haven::create(f, ne, false)
        } else {
            Scientific::create(f, ne, false)
        };
        BigNumber {
            serialized: if keep_haven {
                Format::Haven(text)
            } else {
                Format::Scientific(text)
            },
            base: f,
            exponent: ne,
            is_positive: nb > 0,
        }
    }

    /// Adds a plain decimal scalar by lifting it to a value first.
    pub fn add_scalar(self, rhs: Scalar) -> (r: Self)
        requires
            self.wf(),
            i32::MIN + 8 < self.exp() < i32::MAX - 8,
            i32::MIN + 30 < rhs.exp10 < i32::MAX - 30,
        ensures
            r.wf(),
            rhs.digits == 0 ==> r == self,
            rhs.digits >= 1 ==> exists|b: BigNumber|
                {
                    &&& #[trigger] scalar_post(rhs, b)
                    &&& b.wf()
                    &&& (self.is_zero() ==> r == b)
                    &&& (!self.is_zero() ==> add_post(self, b, r))
                },
    {
        let big_version = Self::new_d(rhs);
        let ghost b = big_version;
        proof {
            crate::arith::lemma_n_digits_upper(rhs.digits as nat);
        }
        let r = self.add(big_version);
        proof {
            if rhs.digits >= 1 {
                assert(scalar_post(rhs, b));
            }
        }
        r
    }
}

/// The multiplier an operand contributes to a product: a Haven operand's
/// text is re-read for its leading numeral, a Scientific operand hands
/// over its mantissa.
pub open spec fn operand_multiplier(v: BigNumber) -> nat {
    if v.is_haven() {
        multiplier_of(v.text(), v.exp())->Ok_0
    } else {
        v.base_units()
    }
}

/// A well-formed nonzero Haven value's text re-parses: against any
/// exponent its leading numeral run yields the numeral the text was
/// rendered from, which sits between a hundredth of the mantissa scale and
/// a thousand times it.
pub proof fn lemma_stored_multiplier(v: BigNumber, e: int)
    requires
        v.wf(),
        !v.is_zero(),
        v.is_haven(),
    ensures
        multiplier_of(v.text(), e) is Ok,
        10_000 <= multiplier_of(v.text(), e)->Ok_0 < 1000 * (SCALE as nat),
        v.text().len() <= 12,
{
    lemma_pow10_values();
    let b = v.base_units();
    if v.text() == haven_text(b, v.exp(), false) {
        let m0 = haven_numeral_units(b, v.exp());
        let rr = rust_rem(v.exp(), 3);
        assert(-2 <= rr <= 2) by {
            if v.exp() >= 0 {
                vstd::arithmetic::div_mod::lemma_mod_division_less_than_divisor(v.exp(), 3);
            } else {
                vstd::arithmetic::div_mod::lemma_mod_division_less_than_divisor(-v.exp(), 3);
            }
        }
        lemma_fsf_id(b);
        assert(10_000 <= m0 < 1000 * (SCALE as nat)) by {
            if rr >= 0 {
                lemma_pow10_increases(rr as nat, 2);
                lemma_pow10_pos(rr as nat);
                assert(b * 1 <= b * pow10(rr as nat)) by {
                    vstd::arithmetic::mul::lemma_mul_left_inequality(
                        b as int,
                        1,
                        pow10(rr as nat) as int,
                    );
                }
                assert(b * pow10(rr as nat) <= b * 100) by {
                    vstd::arithmetic::mul::lemma_mul_left_inequality(
                        b as int,
                        pow10(rr as nat) as int,
                        100,
                    );
                }
                assert(b * 100 < (10 * (SCALE as nat)) * 100) by {
                    vstd::arithmetic::mul::lemma_mul_strict_inequality(
                        b as int,
                        (10 * (SCALE as nat)) as int,
                        100,
                    );
                }
                assert(b * 1 == b) by {
                    vstd::arithmetic::mul::lemma_mul_basics(b as int);
                }
            } else {
                lemma_pow10_increases((-rr) as nat, 2);
                lemma_pow10_pos((-rr) as nat);
                assert(m0 == b / pow10((-rr) as nat));
                assert(b / pow10((-rr) as nat) >= b / 100) by {
                    vstd::arithmetic::div_mod::lemma_div_is_ordered_by_denominator(
                        b as int,
                        pow10((-rr) as nat) as int,
                        100,
                    );
                }
                assert(b / pow10((-rr) as nat) <= b) by {
                    vstd::arithmetic::div_mod::lemma_div_nonincreasing(
                        b as int,
                        pow10((-rr) as nat) as int,
                    );
                }
            }
        }
        crate::notation::lemma_numeral_with_suffix_parse(
            m0,
            crate::notation::haven_index(v.exp()),
            e,
        );
    } else {
        let m = choose|m: nat|
            #![auto]
            (SCALE as nat) <= m < 1000 * (SCALE as nat) && v.base_units() == fsf_u(m)
                && v.text() == haven_text(round2(m), v.exp(), true);
        let rm = round2(m);
        assert(rm <= m) by {
            vstd::arithmetic::div_mod::lemma_fundamental_div_mod(m as int, 10_000);
            vstd::arithmetic::div_mod::lemma_mod_division_less_than_divisor(m as int, 10_000);
        }
        assert(rm >= SCALE as nat) by {
            assert(m / 10_000 >= 100) by {
                vstd::arithmetic::div_mod::lemma_div_is_ordered(
                    SCALE as int,
                    m as int,
                    10_000,
                );
            }
            assert((m / 10_000) * 10_000 >= 100 * 10_000) by {
                vstd::arithmetic::mul::lemma_mul_inequality(
                    100,
                    (m / 10_000) as int,
                    10_000,
                );
            }
        }
        crate::notation::lemma_numeral_with_suffix_parse(
            rm,
            crate::notation::haven_index(v.exp()),
            e,
        );
    }
}

/// What multiplying two nonzero well-formed values yields, following the
/// first operand's notation.
///
/// Both operands contribute their raw multiplier; the raw product keyed
/// against the first operand's own multiplier drives the cyclic decade
/// correction of a Haven product, while a Scientific product takes the
/// normalized raw product and bumps the exponent when the mantissa product
/// crosses a decade. The final exponent adds the second operand's; the
/// sign multiplies; the text is written with the product mantissa verbatim
/// (truncated to two fraction digits in Haven notation).
pub open spec fn mul_post(a: BigNumber, b: BigNumber, r: BigNumber) -> bool {
    let ma = operand_multiplier(a);
    let mb = operand_multiplier(b);
    let mult = (ma * mb) / (SCALE as nat);
    if a.is_haven() {
        let emt = exponential_modulo_ten_spec(dec_of(mult), dec_of(ma));
        let inner = dec_of(ma) + emt;
        let cl = if inner > 2 {
            0
        } else if inner < 0 {
            2
        } else {
            inner
        };
        let nm = fsf_u((ma * b.base_units()) / (SCALE as nat)) * pow10(cl as nat);
        let ne = a.exp() + b.exp();
        &&& !r.is_zero()
        &&& r.base_units() == fsf_u(nm)
        &&& r.exp() == ne
        &&& r.sign() == (a.sign() == b.sign())
        &&& r.is_haven() == (ne <= 24)
        &&& (r.is_haven() ==> r.text() == haven_text(round2(nm), ne, true))
        &&& (!r.is_haven() ==> r.text() == sci_text(nm, ne))
    } else {
        let nm = fsf_u(mult);
        let change = dec_of((a.base_units() * b.base_units()) / (SCALE as nat));
        let ne = a.exp() + change + b.exp();
        &&& !r.is_zero()
        &&& r.base_units() == nm
        &&& r.exp() == ne
        &&& r.sign() == (a.sign() == b.sign())
        &&& !r.is_haven()
        &&& r.text() == sci_text(nm, ne)
    }
}

impl BigNumber {
    /// Multiplies two values.
    ///
    /// A zero operand gives the dedicated zero. Otherwise each operand's
    /// raw multiplier is recovered — re-read from the text for a Haven
    /// operand, the mantissa itself for a Scientific one — the raw
    /// multipliers are multiplied, and the product is renormalized by the
    /// first operand's notation: Haven through the three-wide cyclic
    /// decade correction, Scientific by a decade bump when the mantissa
    /// product crosses one. The exponents add; the signs multiply.
    pub fn mul(self, other: Self) -> (r: Self)
        requires
            self.wf(),
            other.wf(),
            i32::MIN + 8 < self.exp() < i32::MAX - 8,
            i32::MIN + 8 < other.exp() < i32::MAX - 8,
            i32::MIN + 8 < self.exp() + other.exp() < i32::MAX - 8,
        ensures
            r.wf(),
            self.is_zero() || other.is_zero() ==> r.is_zero(),
            !self.is_zero() && !other.is_zero() ==> mul_post(self, other, r),
    {
        if self.base == 0 || other.base == 0 {
            return Self::make_zero();
        }
        proof {
            lemma_pow10_values();
        }
        let m_self: u64 = match &self.serialized {
            Format::Haven(x) => {
                proof {
                    lemma_stored_multiplier(self, self.exp());
                }
                match Haven::get_multiplier(x.clone(), self.exponent) {
                    Result::Ok(v) => v,
                    Result::Err(_) => vstd::pervasive::unreached(),
                }
            },
            Format::Scientific(_) => self.base,
        };
        let m_other: u64 = match &other.serialized {
            Format::Haven(x) => {
                proof {
                    lemma_stored_multiplier(other, other.exp());
                }
                match Haven::get_multiplier(x.clone(), other.exponent) {
                    Result::Ok(v) => v,
                    Result::Err(_) => vstd::pervasive::unreached(),
                }
            },
            Format::Scientific(_) => other.base,
        };
        proof {
            assert(10_000 <= m_self < 1_000_000_000);
            assert(10_000 <= m_other < 1_000_000_000);
            assert((m_self as int) * (m_other as int) < 1_000_000_000 * 1_000_000_000) by {
                vstd::arithmetic::mul::lemma_mul_strict_upper_bound(
                    m_self as int,
                    1_000_000_000,
                    m_other as int,
                    1_000_000_000,
                );
            }
            assert((m_self as int) * (m_other as int) >= 10_000 * 10_000) by {
                vstd::arithmetic::mul::lemma_mul_inequality(10_000, m_self as int, m_other as int);
                vstd::arithmetic::mul::lemma_mul_left_inequality(
                    m_self as int,
                    10_000,
                    m_other as int,
                );
            }
        }
        let mult: u64 = (m_self * m_other) / SCALE;
        proof {
            assert(mult >= 100) by {
                vstd::arithmetic::div_mod::lemma_div_is_ordered(
                    100_000_000,
                    (m_self as int) * (m_other as int),
                    SCALE as int,
                );
            }
        }
        let sgn_i = sign_from_bool(self.is_positive) * sign_from_bool(other.is_positive);
        let sgn = bool_from_number(sgn_i);
        proof {
            assert(sgn == (self.sign() == other.sign()));
        }
        let self_haven = match &self.serialized {
            Format::Haven(_) => true,
            Format::Scientific(_) => false,
        };
        if self_haven {
            let dm = digit_count(mult);
            let du = digit_count(m_self);
            let emt = exponential_modulo_ten(dm as i64 - 7, du as i64 - 7);
            let inner: i64 = (du as i64 - 7) + emt;
            let cl: i64 = if inner > 2 {
                0
            } else if inner < 0 {
                2
            } else {
                inner
            };
            let factor = pow10_u64(cl as u32);
            proof {
                lemma_pow10_increases(cl as nat, 2);
                assert((m_self as int) * (other.base as int) < 1_000_000_000 * 10_000_000) by {
                    vstd::arithmetic::mul::lemma_mul_strict_upper_bound(
                        m_self as int,
                        1_000_000_000,
                        other.base as int,
                        10_000_000,
                    );
                }
                assert((m_self as int) * (other.base as int) >= 10_000 * 1_000_000) by {
                    vstd::arithmetic::mul::lemma_mul_inequality(
                        10_000,
                        m_self as int,
                        other.base as int,
                    );
                    vstd::arithmetic::mul::lemma_mul_left_inequality(
                        m_self as int,
                        1_000_000,
                        other.base as int,
                    );
                }
            }
            let prod_units: u64 = (m_self * other.base) / SCALE;
            proof {
                assert(prod_units >= 1) by {
                    vstd::arithmetic::div_mod::lemma_div_is_ordered(
                        10_000_000_000,
                        (m_self as int) * (other.base as int),
                        SCALE as int,
                    );
                }
            }
            let f0 = get_first_significant_figure(prod_units);
            proof {
                lemma_fsf_range(prod_units as nat);
                assert((f0 as int) * (factor as int) <= 10_000_000 * 100) by {
                    vstd::arithmetic::mul::lemma_mul_upper_bound(
                        f0 as int,
                        10_000_000,
                        factor as int,
                        100,
                    );
                }
                assert((f0 as int) * (factor as int) >= 1_000_000 * 1) by {
                    vstd::arithmetic::mul::lemma_mul_inequality(1_000_000, f0 as int, factor as int);
                    vstd::arithmetic::mul::lemma_mul_left_inequality(f0 as int, 1, factor as int);
                    vstd::arithmetic::mul::lemma_mul_basics(f0 as int);
                }
            }
            let nm: u64 = f0 * factor;
            let base2 = get_first_significant_figure(nm);
            proof {
                lemma_fsf_range(nm as nat);
                lemma_fsf_id(base2 as nat);
            }
            let ne: i32 = (self.exponent as i64 + other.exponent as i64) as i32;
            let keep = ne <= 24;
            let nm_rounded = crate::arith::round_to_order(nm);
            let text = if keep {
                Haven::create(nm_rounded, ne, true)
            } else {
                Scientific::create(nm, ne, false)
            };
            proof {
                if !keep {
                    assert(sci_text(nm as nat, ne as int) == sci_text(base2 as nat, ne as int));
                }
            }
            BigNumber {
                serialized: if keep {
                    Format::Haven(text)
                } else {
                    Format::Scientific(text)
                },
                base: base2,
                exponent: ne,
                is_positive: sgn,
            }
        } else {
            let nm = get_first_significant_figure(mult);
            proof {
                lemma_fsf_range(mult as nat);
                lemma_fsf_id(nm as nat);
                assert((self.base as int) * (other.base as int) < 10_000_000 * 10_000_000) by {
                    vstd::arithmetic::mul::lemma_mul_strict_upper_bound(
                        self.base as int,
                        10_000_000,
                        other.base as int,
                        10_000_000,
                    );
                }
                assert((self.base as int) * (other.base as int) >= 1_000_000 * 1_000_000) by {
                    vstd::arithmetic::mul::lemma_mul_inequality(
                        1_000_000,
                        self.base as int,
                        other.base as int,
                    );
                    vstd::arithmetic::mul::lemma_mul_left_inequality(
                        self.base as int,
                        1_000_000,
                        other.base as int,
                    );
                }
            }
            let ch_units: u64 = (self.base * other.base) / SCALE;
            proof {
                assert(SCALE <= ch_units < 100_000_000) by {
                    vstd::arithmetic::div_mod::lemma_div_is_ordered(
                        1_000_000_000_000,
                        (self.base as int) * (other.base as int),
                        SCALE as int,
                    );
                    vstd::arithmetic::div_mod::lemma_div_is_ordered(
                        (self.base as int) * (other.base as int),
                        100_000_000_000_000 - 1,
                        SCALE as int,
                    );
                }
            }
            let dc = digit_count(ch_units);
            proof {
                assert(dc == 7 || dc == 8) by {
                    lemma_n_digits_bounds(ch_units as nat);
                    if dc <= 6 {
                        lemma_pow10_increases(dc as nat, 6);
                        assert(false);
                    }
                    if dc >= 9 {
                        lemma_pow10_increases(8, (dc - 1) as nat);
                        assert(false);
                    }
                }
            }
            let change: i32 = if dc == 8 {
                1
            } else {
                0
            };
            let ne: i32 = (self.exponent as i64 + change as i64 + other.exponent as i64) as i32;
            let text = Scientific::create(nm, ne, true);
            BigNumber {
                serialized: Format::Scientific(text),
                base: nm,
                exponent: ne,
                is_positive: sgn,
            }
        }
    }

    /// Multiplies by a plain decimal scalar by lifting it to a value first.
    pub fn mul_scalar(self, rhs: Scalar) -> (r: Self)
        requires
            self.wf(),
            i32::MIN + 60 < self.exp() < i32::MAX - 60,
            -20 < rhs.exp10 < 20,
        ensures
            r.wf(),
            rhs.digits == 0 ==> r.is_zero(),
            rhs.digits >= 1 ==> exists|b: BigNumber|
                {
                    &&& #[trigger] scalar_post(rhs, b)
                    &&& b.wf()
                    &&& (self.is_zero() ==> r.is_zero())
                    &&& (!self.is_zero() ==> mul_post(self, b, r))
                },
    {
        let big_version = Self::new_d(rhs);
        let ghost b = big_version;
        proof {
            crate::arith::lemma_n_digits_upper(rhs.digits as nat);
        }
        let r = self.mul(big_version);
        proof {
            if rhs.digits >= 1 {
                assert(scalar_post(rhs, b));
            }
        }
        r
    }
}

impl PartialEq for BigNumber {
    /// Equality of magnitude and sign: the cached text plays no part.
    fn eq(&self, other: &Self) -> (r: bool) {
        self.is_positive == other.is_positive && self.base == other.base && self.exponent
            == other.exponent
    }
}

impl vstd::std_specs::cmp::PartialEqSpecImpl for BigNumber {
    open spec fn obeys_eq_spec() -> bool {
        true
    }

    open spec fn eq_spec(&self, other: &Self) -> bool {
        self.sign() == other.sign() && self.base_units() == other.base_units() && self.exp()
            == other.exp()
    }
}

impl Eq for BigNumber {}

impl PartialOrd for BigNumber {
    fn partial_cmp(&self, other: &Self) -> (r: Option<core::cmp::Ordering>) {
        Some(self.cmp(other))
    }

    fn lt(&self, other: &Self) -> (r: bool) {
        match self.cmp(other) {
            core::cmp::Ordering::Less => true,
            _ => false,
        }
    }

    fn le(&self, other: &Self) -> (r: bool) {
        match self.cmp(other) {
            core::cmp::Ordering::Greater => false,
            _ => true,
        }
    }

    fn gt(&self, other: &Self) -> (r: bool) {
        match self.cmp(other) {
            core::cmp::Ordering::Greater => true,
            _ => false,
        }
    }

    fn ge(&self, other: &Self) -> (r: bool) {
        match self.cmp(other) {
            core::cmp::Ordering::Less => false,
            _ => true,
        }
    }
}

impl vstd::std_specs::cmp::PartialOrdSpecImpl for BigNumber {
    open spec fn obeys_partial_cmp_spec() -> bool {
        true
    }

    open spec fn partial_cmp_spec(&self, other: &Self) -> Option<core::cmp::Ordering> {
        Some(self.order_of(*other))
    }
}

/// Addition is commutative for same-sign operands: any results meeting the
/// addition contract for `a + b` and for `b + a` agree in sign, mantissa
/// and exponent — the three fields the value order and equality compare.
pub proof fn lemma_add_commutative(a: BigNumber, b: BigNumber, r1: BigNumber, r2: BigNumber)
    requires
        a.wf(),
        b.wf(),
        a.sign() == b.sign(),
        b.is_zero() ==> r1 == a,
        a.is_zero() && !b.is_zero() ==> r1 == b,
        !a.is_zero() && !b.is_zero() ==> add_post(a, b, r1),
        a.is_zero() ==> r2 == b,
        b.is_zero() && !a.is_zero() ==> r2 == a,
        !a.is_zero() && !b.is_zero() ==> add_post(b, a, r2),
    ensures
        r1.sign() == r2.sign(),
        r1.base_units() == r2.base_units(),
        r1.exp() == r2.exp(),
{
    lemma_pow10_values();
    if a.is_zero() || b.is_zero() {
    } else if a.order_of(b) is Less {
        assert(b.order_of(a) is Greater);
    } else if a.order_of(b) is Greater {
        assert(b.order_of(a) is Less);
    } else {
        assert(a.exp() == b.exp() && a.base_units() == b.base_units());
        assert(aligned_delta(b.base_units(), 0) == b.base_units()) by {
            assert(b.base_units() / pow10(0) == b.base_units()) by {
                vstd::arithmetic::div_mod::lemma_fundamental_div_mod(b.base_units() as int, 1);
                vstd::arithmetic::div_mod::lemma_mod_division_less_than_divisor(
                    b.base_units() as int,
                    1,
                );
            }
        }
        assert(aligned_delta(a.base_units(), 0) == a.base_units()) by {
            assert(a.base_units() / pow10(0) == a.base_units()) by {
                vstd::arithmetic::div_mod::lemma_fundamental_div_mod(a.base_units() as int, 1);
                vstd::arithmetic::div_mod::lemma_mod_division_less_than_divisor(
                    a.base_units() as int,
                    1,
                );
            }
        }
        assert(combined_base(a, b) == combined_base(b, a));
    }
}

/// Multiplying by the canonical one leaves the value unchanged in sign,
/// mantissa and exponent, whenever the numeral carried by a Haven
/// operand's text recovers the stored mantissa exactly — which holds for
/// every value except some results of earlier multiplications, whose text
/// keeps only two fraction digits of the mantissa.
pub proof fn lemma_mul_identity(a: BigNumber, one: BigNumber, r: BigNumber)
    requires
        a.wf(),
        !a.is_zero(),
        one.wf(),
        scalar_post(Scalar { negative: false, digits: 1, exp10: 0 }, one),
        a.is_haven() ==> fsf_u(operand_multiplier(a)) == a.base_units(),
        mul_post(a, one, r),
    ensures
        r.sign() == a.sign(),
        r.base_units() == a.base_units(),
        r.exp() == a.exp(),
{
    lemma_pow10_values();
    assert(n_digits(1) == 1);
    assert(scalar_dec(Scalar { negative: false, digits: 1, exp10: 0 }) == 0);
    assert(one.exp() == 0 && one.sign() && one.is_haven());
    assert(one.base_units() == (1 as nat * (SCALE as nat)) / pow10(0)) by {
        assert((-0) as nat == 0nat);
    }
    assert(one.base_units() == SCALE as nat) by {
        vstd::arithmetic::div_mod::lemma_fundamental_div_mod(SCALE as int, 1);
        vstd::arithmetic::div_mod::lemma_mod_division_less_than_divisor(SCALE as int, 1);
        assert(1 as nat * (SCALE as nat) == SCALE as nat);
    }
    let mo = operand_multiplier(one);
    assert(mo == SCALE as nat) by {
        lemma_fsf_id(SCALE as nat);
        assert(haven_numeral_units(SCALE as nat, 0) == SCALE as nat) by {
            assert(rust_rem(0, 3) == 0);
            vstd::arithmetic::mul::lemma_mul_basics(fsf_u(SCALE as nat) as int);
        }
        assert(one.text() == haven_text(SCALE as nat, 0, false));
        crate::notation::lemma_numeral_with_suffix_parse(
            SCALE as nat,
            crate::notation::haven_index(0),
            0,
        );
    }
    let ma = operand_multiplier(a);
    assert((ma * mo) / (SCALE as nat) == ma) by {
        vstd::arithmetic::div_mod::lemma_div_by_multiple(ma as int, SCALE as int);
    }
    if a.is_haven() {
        lemma_stored_multiplier(a, a.exp());
        assert(10_000 <= ma < 1000 * (SCALE as nat));
        assert(exponential_modulo_ten_spec(dec_of(ma), dec_of(ma)) == 0) by {
            assert(rust_rem(0, 3) == 0);
        }
        let inner = dec_of(ma);
        assert(-2 <= inner <= 2) by {
            lemma_n_digits_bounds(ma);
            if n_digits(ma) <= 4 {
                lemma_pow10_increases(n_digits(ma), 4);
                assert(false);
            }
            if n_digits(ma) >= 10 {
                lemma_pow10_increases(9, (n_digits(ma) - 1) as nat);
                assert(false);
            }
        }
        let cl = if inner > 2 {
            0
        } else if inner < 0 {
            2
        } else {
            inner
        };
        assert(0 <= cl <= 2);
        assert((ma * one.base_units()) / (SCALE as nat) == ma) by {
            vstd::arithmetic::div_mod::lemma_div_by_multiple(ma as int, SCALE as int);
        }
        let nm = fsf_u(ma) * pow10(cl as nat);
        lemma_fsf_range(ma);
        assert(fsf_u(nm) == fsf_u(ma)) by {
            crate::arith::lemma_mul_pow10_digits(fsf_u(ma), cl as nat);
            lemma_fsf_range(ma);
            assert(n_digits(fsf_u(ma)) == 7);
            assert(n_digits(nm) == 7 + cl);
            assert(fsf_u(nm) == nm / pow10(cl as nat));
            assert(nm / pow10(cl as nat) == fsf_u(ma)) by {
                lemma_pow10_pos(cl as nat);
                vstd::arithmetic::div_mod::lemma_div_by_multiple(
                    fsf_u(ma) as int,
                    pow10(cl as nat) as int,
                );
            }
        }
    } else {
        assert(ma == a.base_units());
        lemma_fsf_id(a.base_units());
        assert(dec_of((a.base_units() * one.base_units()) / (SCALE as nat)) == 0) by {
            vstd::arithmetic::div_mod::lemma_div_by_multiple(a.base_units() as int, SCALE as int);
        }
    }
}

/// One direction of the round trip, Scientific side: a positive
/// well-formed value in Scientific notation at a nonnegative exponent
/// parses back from its own text, under its own tag, to its own exponent
/// and mantissa. (A negative exponent cannot round-trip: the text level
/// carries no exponent sign.)
pub proof fn lemma_sci_round_trip(v: BigNumber)
    requires
        v.wf(),
        !v.is_zero(),
        !v.is_haven(),
        v.sign(),
        0 <= v.exp(),
    ensures
        parse_model_at(false, v.text()) == Some((v.exp(), v.base_units())),
        fsf_u(v.base_units()) == v.base_units(),
{
    lemma_pow10_values();
    let b = v.base_units();
    lemma_fsf_id(b);
    let t = v.text();
    let nt = numeral_text(b);
    lemma_numeral_text_props(b);
    let mid = seq!['x', '1', '0', '^'];
    let rn = render_nat(v.exp() as nat);
    lemma_render_nat_props(v.exp() as nat);
    assert(int_text(v.exp()) == rn);
    assert(t == (nt + mid) + rn);
    assert(suffix_digit_len(t) == rn.len()) by {
        assert(forall|k: int|
            t.len() - rn.len() <= k < t.len() ==> #[trigger] t[k] == rn[k - (t.len()
                - rn.len())]);
        assert(t[t.len() - rn.len() - 1] == mid[3]);
        lemma_suffix_digit_len_scan(t, rn.len() as int);
    }
    assert(t.skip(t.len() - rn.len()) =~= rn);
    assert(sci_exponent(t) == Ok::<int, AnalysisErrors>(v.exp()));
    assert((mid + rn)[0] == 'x');
    crate::notation::lemma_numeral_with_tail_parse(b, mid + rn, v.exp());
    assert(nt + (mid + rn) =~= t);
    assert(multiplier_of(t, v.exp()) == Ok::<nat, AnalysisErrors>(b));
}

/// One direction of the round trip, Haven side: a positive well-formed
/// value below the first abbreviation step, rendered plainly (not as a
/// product), parses back from its own text, under its own tag, to its own
/// exponent and to a multiplier that normalizes to its own mantissa.
pub proof fn lemma_haven_round_trip(v: BigNumber)
    requires
        v.wf(),
        !v.is_zero(),
        v.is_haven(),
        v.sign(),
        0 <= v.exp() <= 2,
        v.text() == haven_text(v.base_units(), v.exp(), false),
    ensures
        parse_model_at(true, v.text()) is Some,
        parse_model_at(true, v.text())->Some_0.0 == v.exp(),
        fsf_u(parse_model_at(true, v.text())->Some_0.1) == v.base_units(),
{
    lemma_pow10_values();
    let b = v.base_units();
    let e = v.exp();
    lemma_fsf_id(b);
    assert(rust_rem(e, 3) == e) by {
        vstd::arithmetic::div_mod::lemma_small_mod(e as nat, 3);
    }
    let m0 = haven_numeral_units(b, e);
    assert(m0 == b * pow10(e as nat));
    lemma_pow10_increases(e as nat, 2);
    lemma_pow10_pos(e as nat);
    assert((SCALE as nat) * 1 <= b * pow10(e as nat)) by {
        vstd::arithmetic::mul::lemma_mul_inequality(SCALE as int, b as int, pow10(e as nat) as int);
        vstd::arithmetic::mul::lemma_mul_left_inequality(b as int, 1, pow10(e as nat) as int);
        vstd::arithmetic::mul::lemma_mul_basics(SCALE as int);
    }
    assert(b * pow10(e as nat) <= b * 100) by {
        vstd::arithmetic::mul::lemma_mul_left_inequality(b as int, pow10(e as nat) as int, 100);
    }
    assert(b * 100 < (10 * (SCALE as nat)) * 100) by {
        vstd::arithmetic::mul::lemma_mul_strict_inequality(
            b as int,
            (10 * (SCALE as nat)) as int,
            100,
        );
    }
    assert(crate::notation::haven_index(e) == 0);
    let nt = numeral_text(m0);
    assert(v.text() =~= nt);
    lemma_numeral_text_props(m0);
    assert(suffix_alpha_len(nt) == 0) by {
        assert(crate::digits::is_digit(nt.last()));
        assert(!crate::digits::is_alpha(nt[nt.len() - 1]));
        lemma_suffix_alpha_len_scan(nt, 0);
    }
    crate::arith::lemma_mul_pow10_digits(b, e as nat);
    assert(n_digits(m0) == 7 + e);
    assert(dec_of(m0) == e);
    assert(haven_exponent(nt) == Ok::<int, AnalysisErrors>(e)) by {
        assert(nt.take(nt.len() as int) =~= nt);
    }
    crate::notation::lemma_numeral_with_tail_parse(m0, Seq::empty(), e);
    assert(nt + Seq::<char>::empty() =~= nt);
    assert(multiplier_of(nt, e) == Ok::<nat, AnalysisErrors>(m0));
    assert(fsf_u(m0) == b) by {
        assert(fsf_u(m0) == m0 / pow10(e as nat));
        vstd::arithmetic::div_mod::lemma_div_by_multiple(b as int, pow10(e as nat) as int);
    }
}

/// A pair of magnitudes: a point with one value per axis.
#[derive(Debug, Clone)]
pub struct BigVec2 {
    pub x: BigNumber,
    pub y: BigNumber,
}

impl Default for BigNumber {
    /// The canonical one: mantissa one, exponent zero, positive, in Haven
    /// notation.
    fn default() -> (r: Self)
        ensures
            r.wf(),
            r.base_units() == SCALE as nat,
            r.exp() == 0,
            r.sign(),
            r.is_haven(),
    {
        proof {
            lemma_pow10_values();
            assert(n_digits(1) == 1);
            assert((1 as nat * (SCALE as nat)) / pow10(0) == SCALE as nat) by {
                vstd::arithmetic::div_mod::lemma_fundamental_div_mod(SCALE as int, 1);
                vstd::arithmetic::div_mod::lemma_mod_division_less_than_divisor(SCALE as int, 1);
            }
        }
        BigNumber::new_d(Scalar { negative: false, digits: 1, exp10: 0 })
    }
}

} // verus!
