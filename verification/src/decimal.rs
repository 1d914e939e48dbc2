//! Decimal numbers as the plain parts that `rust_decimal::Decimal` is made of.
//!
//! Prices and quantities of the order book travel through the library as [`Dec`],
//! a 96-bit magnitude in three 32-bit words, a sign bit and a power-of-ten scale.
//! Comparison, subtraction, addition and text formatting are done by
//! `rust_decimal` itself, behind the trusted items at the end of this file.
use rust_decimal::Decimal;
use vstd::arithmetic::power::pow;
use crate::text::{decimal_text, digit_char};
use vstd::prelude::*;

verus! {

/// The largest scale `rust_decimal` accepts.
pub const MAX_SCALE: u32 = 28;

/// A decimal number `(-1)^negative * (hi * 2^64 + mid * 2^32 + lo) / 10^scale`.
///
/// The sign bit is kept as it is, so a zero may carry a negative sign, as a
/// `rust_decimal::Decimal` may.
#[derive(Clone, Copy, Debug, PartialEq, Eq)]
pub struct Dec {
    pub lo: u32,
    pub mid: u32,
    pub hi: u32,
    pub negative: bool,
    pub scale: u32,
}

impl View for Dec {
    /// Sign bit, magnitude and scale.
    type V = (bool, nat, nat);

    open spec fn view(&self) -> (bool, nat, nat) {
        (self.negative, self.magnitude(), self.scale as nat)
    }
}

/// `10^e`.
pub open spec fn ten_pow(e: nat) -> int {
    pow(10, e)
}

/// The signed numerator of a viewed decimal.
pub open spec fn view_numerator(v: (bool, nat, nat)) -> int {
    if v.0 {
        -(v.1 as int)
    } else {
        v.1 as int
    }
}

impl Dec {
    pub open spec fn magnitude(self) -> nat {
        (self.hi as nat) * 0x1_0000_0000_0000_0000nat + (self.mid as nat) * 0x1_0000_0000nat
            + (self.lo as nat)
    }

    /// A decimal that `rust_decimal` can represent: its scale is at most 28.
    pub open spec fn valid(self) -> bool {
        self.scale <= MAX_SCALE
    }

    /// The value is `numerator() / unit()`.
    pub open spec fn numerator(self) -> int {
        view_numerator(self@)
    }

    pub open spec fn unit(self) -> int {
        ten_pow(self.scale as nat)
    }

    pub open spec fn spec_is_zero(self) -> bool {
        self.magnitude() == 0
    }

    /// The whole part has at most 26 digits, so that `{:.5}` text fits the
    /// 32-character buffer `rust_decimal` writes it into.
    pub open spec fn fits_text_5(self) -> bool {
        (self.magnitude() as int) < ten_pow((26 + self.scale) as nat)
    }

    /// The decimal `1` as `rust_decimal` builds it from the integer `1`.
    pub open spec fn spec_one() -> Dec {
        Dec { lo: 1, mid: 0, hi: 0, negative: false, scale: 0 }
    }

    /// Builds a decimal from its parts; `None` when the scale exceeds 28.
    pub fn new(lo: u32, mid: u32, hi: u32, negative: bool, scale: u32) -> (r: Option<Dec>)
        ensures
            scale <= MAX_SCALE ==> r == Some(Dec { lo, mid, hi, negative, scale }),
            scale > MAX_SCALE ==> r is None,
    {
        if scale <= MAX_SCALE {
            Some(Dec { lo, mid, hi, negative, scale })
        } else {
            None
        }
    }

    /// The decimal `1`.
    pub fn one() -> (r: Dec)
        ensures
            r == Dec::spec_one(),
            r.valid(),
    {
        Dec { lo: 1, mid: 0, hi: 0, negative: false, scale: 0 }
    }

    /// True when the magnitude is zero, whatever the sign bit.
    pub fn is_zero(&self) -> (r: bool)
        ensures
            r == self.spec_is_zero(),
    {
        let r = self.lo == 0 && self.mid == 0 && self.hi == 0;
        proof {
            assert(r ==> self.magnitude() == 0);
            assert(!r ==> self.magnitude() > 0) by (nonlinear_arith)
                requires
                    !r ==> (self.lo > 0 || self.mid > 0 || self.hi > 0),
                    self.magnitude() == (self.hi as nat) * 0x1_0000_0000_0000_0000nat
                        + (self.mid as nat) * 0x1_0000_0000nat + (self.lo as nat),
            ;
        }
        r
    }

    /// True when the whole part has at most 26 digits: `{:.5}` text can be written.
    pub fn text_5_fits(&self) -> (r: bool)
        ensures
            r == self.fits_text_5(),
    {
        let m: u128 = (self.hi as u128) * 0x1_0000_0000_0000_0000 + (self.mid as u128)
            * 0x1_0000_0000 + (self.lo as u128);
        proof {
            reveal(pow);
            reveal_with_fuel(pow, 30);
            assert(ten_pow(26) == 100_000_000_000_000_000_000_000_000);
            assert(ten_pow(27) == 1_000_000_000_000_000_000_000_000_000);
            assert(ten_pow(28) == 10_000_000_000_000_000_000_000_000_000);
            assert(ten_pow(29) == 100_000_000_000_000_000_000_000_000_000);
            if self.scale >= 3 {
                vstd::arithmetic::power::lemma_pow_increases(10, 29, (26 + self.scale) as nat);
            }
        }
        if self.scale == 0 {
            m < 100_000_000_000_000_000_000_000_000
        } else if self.scale == 1 {
            m < 1_000_000_000_000_000_000_000_000_000
        } else if self.scale == 2 {
            m < 10_000_000_000_000_000_000_000_000_000
        } else {
            true
        }
    }

    /// True when the sign bit is set (a negative zero included).
    pub fn is_sign_negative(&self) -> (r: bool)
        ensures
            r == self.negative,
    {
        self.negative
    }

    /// True when the sign bit is clear (a positive zero included).
    pub fn is_sign_positive(&self) -> (r: bool)
        ensures
            r == !self.negative,
    {
        !self.negative
    }
}

/// `10^scale` of a viewed decimal.
pub open spec fn view_unit(v: (bool, nat, nat)) -> int {
    ten_pow(v.2)
}

/// `a < b` as numbers, over the parts of two decimals.
pub open spec fn view_lt(a: (bool, nat, nat), b: (bool, nat, nat)) -> bool {
    view_numerator(a) * view_unit(b) < view_numerator(b) * view_unit(a)
}

/// `a < b` as numbers.
pub open spec fn value_lt(a: Dec, b: Dec) -> bool {
    view_lt(a@, b@)
}

/// `a == b` as numbers (`0.5` and `0.50` are equal, and so are `0` and `-0`).
pub open spec fn value_eq(a: Dec, b: Dec) -> bool {
    a.numerator() * b.unit() == b.numerator() * a.unit()
}

/// `2^96`, one above the largest magnitude of a decimal.
pub open spec fn magnitude_bound() -> int {
    0x1_0000_0000_0000_0000_0000_0000int
}

/// `(a - b) * 10^(a.scale + b.scale)`, exactly.
pub open spec fn scaled_difference(a: Dec, b: Dec) -> int {
    a.numerator() * b.unit() - b.numerator() * a.unit()
}

/// `(a + b) * 10^(a.scale + b.scale)`, exactly.
pub open spec fn scaled_sum(a: Dec, b: Dec) -> int {
    a.numerator() * b.unit() + b.numerator() * a.unit()
}

/// The number `x / 10^(a.scale + b.scale)`, written at the larger of the two
/// scales, has a magnitude below `2^96`.
pub open spec fn fits_common_scale(x: int, a: Dec, b: Dec) -> bool {
    let m = ten_pow(if a.scale <= b.scale { a.scale as nat } else { b.scale as nat });
    -magnitude_bound() * m < x < magnitude_bound() * m
}

/// `r` is the number `x / 10^(a.scale + b.scale)`.
pub open spec fn has_scaled_value(r: Dec, x: int, a: Dec, b: Dec) -> bool {
    r.numerator() * (a.unit() * b.unit()) == x * r.unit()
}

/// What `rust_decimal` gives for `a.checked_sub(b)`, over the parts of `a` and `b`:
/// `None` exactly where `a - b` overflows (and the operator panics).
pub uninterp spec fn decimal_checked_sub(a: (bool, nat, nat), b: (bool, nat, nat)) -> Option<
    (bool, nat, nat),
>;

/// What `rust_decimal` gives for `a.checked_add(b)`, over the parts of `a` and `b`:
/// `None` exactly where `a + b` overflows (and the operator panics).
pub uninterp spec fn decimal_checked_add(a: (bool, nat, nat), b: (bool, nat, nat)) -> Option<
    (bool, nat, nat),
>;

/// Five decimal digits of `n < 100000`, with leading zeros.
pub open spec fn five_digits(n: int) -> Seq<char> {
    seq![
        digit_char((n / 10000) % 10),
        digit_char((n / 1000) % 10),
        digit_char((n / 100) % 10),
        digit_char((n / 10) % 10),
        digit_char(n % 10),
    ]
}

/// The text that `format!("{:.5}", d)` gives for a `rust_decimal::Decimal` with these
/// parts: a `-` when the sign bit is set, the whole part in decimal, a point, and the
/// first five fractional digits, cut off (not rounded) and padded with zeros.
pub open spec fn decimal_text_5(d: (bool, nat, nat)) -> Seq<char> {
    let u = ten_pow(d.2);
    let whole = (d.1 as int) / u;
    let frac = ((d.1 as int) % u) * 100000 / u;
    (if d.0 {
        seq!['-']
    } else {
        Seq::<char>::empty()
    }) + decimal_text(whole as nat) + seq!['.'] + five_digits(frac)
}

pub proof fn lemma_unit_positive(a: Dec)
    ensures
        a.unit() > 0,
{
    vstd::arithmetic::power::lemma_pow_positive(10, a.scale as nat);
}

/// `<` on values is transitive.
pub proof fn lemma_lt_transitive(a: Dec, b: Dec, c: Dec)
    requires
        value_lt(a, b),
        value_lt(b, c),
    ensures
        value_lt(a, c),
{
    lemma_unit_positive(a);
    lemma_unit_positive(b);
    lemma_unit_positive(c);
    let (an, au, bn, bu, cn, cu) = (
        a.numerator(),
        a.unit(),
        b.numerator(),
        b.unit(),
        c.numerator(),
        c.unit(),
    );
    assert(an * cu < cn * au) by (nonlinear_arith)
        requires
            au > 0,
            bu > 0,
            cu > 0,
            an * bu < bn * au,
            bn * cu < cn * bu,
    {
        assert(an * bu * cu < bn * au * cu);
        assert(bn * cu * au < cn * bu * au);
        assert((an * cu) * bu < (cn * au) * bu);
    }
}

/// A number given exactly is below one exactly when its scaled numerator is below
/// the scale factor.
pub proof fn lemma_scaled_value_below_one(r: Dec, x: int, a: Dec, b: Dec)
    requires
        has_scaled_value(r, x, a, b),
    ensures
        value_lt(r, Dec::spec_one()) <==> x < a.unit() * b.unit(),
{
    lemma_unit_positive(r);
    lemma_unit_positive(a);
    lemma_unit_positive(b);
    vstd::arithmetic::power::lemma_pow0(10);
    let (rn, ru, u) = (r.numerator(), r.unit(), a.unit() * b.unit());
    assert(u > 0) by (nonlinear_arith)
        requires
            a.unit() > 0,
            b.unit() > 0,
            u == a.unit() * b.unit(),
    ;
    assert(Dec::spec_one().numerator() == 1);
    assert(Dec::spec_one().unit() == 1);
    assert((rn * 1 < 1 * ru) <==> x < u) by (nonlinear_arith)
        requires
            rn * u == x * ru,
            u > 0,
            ru > 0,
    ;
}

/// Exactly one of `a < b`, `a == b`, `b < a` holds of values.
pub proof fn lemma_trichotomy(a: Dec, b: Dec)
    ensures
        value_lt(a, b) || value_eq(a, b) || value_lt(b, a),
        !(value_lt(a, b) && value_eq(a, b)),
        !(value_lt(a, b) && value_lt(b, a)),
        !(value_eq(a, b) && value_lt(b, a)),
        value_eq(a, b) == value_eq(b, a),
        !value_lt(a, a),
        value_eq(a, a),
{
}

/// Equality of values is transitive, and `<` respects it.
pub proof fn lemma_eq_compatible(a: Dec, b: Dec, c: Dec)
    ensures
        value_eq(a, b) && value_eq(b, c) ==> value_eq(a, c),
        value_eq(a, b) && value_lt(b, c) ==> value_lt(a, c),
        value_lt(a, b) && value_eq(b, c) ==> value_lt(a, c),
{
    lemma_unit_positive(a);
    lemma_unit_positive(b);
    lemma_unit_positive(c);
    let (an, au, bn, bu, cn, cu) = (
        a.numerator(),
        a.unit(),
        b.numerator(),
        b.unit(),
        c.numerator(),
        c.unit(),
    );
    assert(an * bu == bn * au && bn * cu == cn * bu ==> an * cu == cn * au) by (nonlinear_arith)
        requires
            au > 0,
            bu > 0,
            cu > 0,
    {
        if an * bu == bn * au && bn * cu == cn * bu {
            assert(an * bu * cu == bn * au * cu);
            assert(bn * cu * au == cn * bu * au);
            assert((an * cu) * bu == (cn * au) * bu);
        }
    }
    assert(an * bu == bn * au && bn * cu < cn * bu ==> an * cu < cn * au) by (nonlinear_arith)
        requires
            au > 0,
            bu > 0,
            cu > 0,
    {
        if an * bu == bn * au && bn * cu < cn * bu {
            assert(an * bu * cu == bn * au * cu);
            assert(bn * cu * au < cn * bu * au);
            assert((an * cu) * bu < (cn * au) * bu);
        }
    }
    assert(an * bu < bn * au && bn * cu == cn * bu ==> an * cu < cn * au) by (nonlinear_arith)
        requires
            au > 0,
            bu > 0,
            cu > 0,
    {
        if an * bu < bn * au && bn * cu == cn * bu {
            assert(an * bu * cu < bn * au * cu);
            assert(bn * cu * au == cn * bu * au);
            assert((an * cu) * bu < (cn * au) * bu);
        }
    }
}

/// `rust_decimal::Decimal`'s `<` on decimals with these parts.
///
/// Claims that the comparison is by value, exactly; the source compares signs
/// and zeros first and then the magnitudes brought to one scale, and a magnitude
/// that cannot be rescaled within 96 bits is the larger one.
#[verifier::external_body]
pub(crate) fn decimal_less_than(a: &Dec, b: &Dec) -> (r: bool)
    requires
        a.valid(),
        b.valid(),
    ensures
        r == value_lt(*a, *b),
{
    let mut x = Decimal::from_parts(a.lo, a.mid, a.hi, a.negative, a.scale);
    x.set_sign_negative(a.negative);
    let mut y = Decimal::from_parts(b.lo, b.mid, b.hi, b.negative, b.scale);
    y.set_sign_negative(b.negative);
    x < y
}

/// `rust_decimal::Decimal::checked_sub` on decimals with these parts.
///
/// Claims that the result is the named `decimal_checked_sub` of the parts; that a
/// result has a scale of at most 28 and not above the larger scale of the operands;
/// that where the exact difference, written at the larger scale, has a magnitude
/// below `2^96`, there is a result and it is that difference exactly; that a result
/// has the sign of the exact difference; and that a zero result from a nonzero first
/// operand has a clear sign bit. The source aligns both operands to the larger scale,
/// only reduces the scale, rounding, when the magnitude does not fit in 96 bits (so a
/// rounded result is far from zero), tracks the sign of the difference, and clears
/// the sign bit of every zero it computes.
#[verifier::external_body]
pub(crate) fn decimal_sub(a: &Dec, b: &Dec) -> (r: Option<Dec>)
    requires
        a.valid(),
        b.valid(),
    ensures
        r is None <==> decimal_checked_sub(a@, b@) is None,
        r matches Some(d) ==> decimal_checked_sub(a@, b@) == Some(d@) && d.valid() && (d.scale
            <= a.scale || d.scale <= b.scale),
        fits_common_scale(scaled_difference(*a, *b), *a, *b) ==> r is Some,
        r is Some ==> (r->Some_0.numerator() > 0 <==> scaled_difference(*a, *b) > 0),
        r is Some ==> (r->Some_0.numerator() < 0 <==> scaled_difference(*a, *b) < 0),
        r is Some && !a.spec_is_zero() && r->Some_0.spec_is_zero() ==> !r->Some_0.negative,
        fits_common_scale(scaled_difference(*a, *b), *a, *b) ==> has_scaled_value(
            r->Some_0,
            scaled_difference(*a, *b),
            *a,
            *b,
        ),
{
    let mut x = Decimal::from_parts(a.lo, a.mid, a.hi, a.negative, a.scale);
    x.set_sign_negative(a.negative);
    let mut y = Decimal::from_parts(b.lo, b.mid, b.hi, b.negative, b.scale);
    y.set_sign_negative(b.negative);
    match x.checked_sub(y) {
        Some(d) => {
            let u = d.unpack();
            Some(Dec { lo: u.lo, mid: u.mid, hi: u.hi, negative: u.negative, scale: u.scale })
        },
        None => None,
    }
}

/// `rust_decimal::Decimal::checked_add` on decimals with these parts.
///
/// Claims that the result is the named `decimal_checked_add` of the parts; that a
/// result has a scale of at most 28 and not above the larger scale of the operands;
/// that where the exact sum, written at the larger scale, has a magnitude below
/// `2^96`, there is a result and it is that sum exactly; that a result has the sign of
/// the exact sum; and that a zero result from a nonzero first operand has a clear sign
/// bit. The source shares its code with subtraction.
#[verifier::external_body]
pub(crate) fn decimal_add(a: &Dec, b: &Dec) -> (r: Option<Dec>)
    requires
        a.valid(),
        b.valid(),
    ensures
        r is None <==> decimal_checked_add(a@, b@) is None,
        r matches Some(d) ==> decimal_checked_add(a@, b@) == Some(d@) && d.valid() && (d.scale
            <= a.scale || d.scale <= b.scale),
        fits_common_scale(scaled_sum(*a, *b), *a, *b) ==> r is Some,
        r is Some ==> (r->Some_0.numerator() > 0 <==> scaled_sum(*a, *b) > 0),
        r is Some ==> (r->Some_0.numerator() < 0 <==> scaled_sum(*a, *b) < 0),
        r is Some && !a.spec_is_zero() && r->Some_0.spec_is_zero() ==> !r->Some_0.negative,
        fits_common_scale(scaled_sum(*a, *b), *a, *b) ==> has_scaled_value(
            r->Some_0,
            scaled_sum(*a, *b),
            *a,
            *b,
        ),
{
    let mut x = Decimal::from_parts(a.lo, a.mid, a.hi, a.negative, a.scale);
    x.set_sign_negative(a.negative);
    let mut y = Decimal::from_parts(b.lo, b.mid, b.hi, b.negative, b.scale);
    y.set_sign_negative(b.negative);
    match x.checked_add(y) {
        Some(d) => {
            let u = d.unpack();
            Some(Dec { lo: u.lo, mid: u.mid, hi: u.hi, negative: u.negative, scale: u.scale })
        },
        None => None,
    }
}

/// `format!("{:.5}", d)` for the `rust_decimal::Decimal` with these parts.
///
/// Claims that the text is `decimal_text_5` of the parts: the source writes the
/// mantissa's digits, padded with zeros up to the scale, then the whole part (or `0`),
/// a point and five fractional digits into a 32-character buffer, and the sign in
/// front. The bound on the magnitude keeps the whole part to 26 digits, so that the
/// text fits the buffer; past it the crate panics.
#[verifier::external_body]
pub(crate) fn decimal_format_5(a: &Dec) -> (r: String)
    requires
        a.valid(),
        a.fits_text_5(),
    ensures
        r@ == decimal_text_5(a@),
{
    let mut x = Decimal::from_parts(a.lo, a.mid, a.hi, a.negative, a.scale);
    x.set_sign_negative(a.negative);
    format!("{:.5}", x)
}

} // verus!
