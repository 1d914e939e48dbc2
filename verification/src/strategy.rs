//! Trading signals read off the books.
use crate::decimal::{
    decimal_add, decimal_checked_add, decimal_checked_sub, decimal_less_than, decimal_sub,
    fits_common_scale, has_scaled_value, lemma_scaled_value_below_one, lemma_unit_positive,
    magnitude_bound, scaled_difference, scaled_sum, ten_pow, view_lt, Dec,
};
use crate::orderbook::Orderbook;
use crate::response::Timestamp;
use vstd::prelude::*;

verus! {

/// What buying one "yes" and one "no" at the given asks would yield.
#[derive(Clone, Copy, Debug, PartialEq, Eq)]
pub enum ArbCheck {
    /// `1 - (yes + no)` has a clear sign bit: a profit (or break-even) of this much.
    Profit(Dec),
    /// `1 - (yes + no)` is negative.
    NoProfit,
    /// The sum or the difference overflows a decimal.
    Overflow,
}

/// `1 - (yes_ask + no_ask)` as `rust_decimal` computes it, if it can.
pub open spec fn spec_profit(yes_ask: Dec, no_ask: Dec) -> Option<(bool, nat, nat)> {
    match decimal_checked_add(yes_ask@, no_ask@) {
        Some(sum) => decimal_checked_sub(Dec::spec_one()@, sum),
        None => None,
    }
}

/// `yes + no` and `1 - (yes + no)` are both computed exactly: the sum fits at the
/// larger scale of the two asks, and so does `1 - (yes + no)`.
pub open spec fn arb_fits(yes_ask: Dec, no_ask: Dec) -> bool {
    let u = yes_ask.unit() * no_ask.unit();
    let d = u - scaled_sum(yes_ask, no_ask);
    let big = ten_pow(if yes_ask.scale <= no_ask.scale { no_ask.scale as nat } else { yes_ask.scale as nat });
    &&& fits_common_scale(scaled_sum(yes_ask, no_ask), yes_ask, no_ask)
    &&& -magnitude_bound() * u < d * big < magnitude_bound() * u
}

/// Risk-free profit from the two sides of one market.
pub struct Arb;

impl Arb {
    /// Checks whether buying both outcomes at their asks pays: the profit is
    /// `1 - (yes_ask + no_ask)`, reported when its sign bit is clear (so a
    /// break-even of zero counts).
    pub fn arb_exists(yes_ask: Dec, no_ask: Dec) -> (r: ArbCheck)
        requires
            yes_ask.valid(),
            no_ask.valid(),
        ensures
            match spec_profit(yes_ask, no_ask) {
                None => r is Overflow,
                Some(p) => if p.0 {
                    r is NoProfit
                } else {
                    r matches ArbCheck::Profit(d) && d@ == p
                },
            },
            arb_fits(yes_ask, no_ask) ==> !(r is Overflow),
            arb_fits(yes_ask, no_ask) ==> (r matches ArbCheck::Profit(d) ==> d.numerator() * (
            yes_ask.unit() * no_ask.unit()) == (yes_ask.unit() * no_ask.unit() - scaled_sum(
                yes_ask,
                no_ask,
            )) * d.unit()),
            fits_common_scale(scaled_sum(yes_ask, no_ask), yes_ask, no_ask) ==> (r is Profit <==> (
            !(r is Overflow) && scaled_sum(yes_ask, no_ask) <= yes_ask.unit() * no_ask.unit())),
    {
        let sum = match decimal_add(&yes_ask, &no_ask) {
            Some(s) => s,
            None => return ArbCheck::Overflow,
        };
        proof {
            if arb_fits(yes_ask, no_ask) {
                lemma_arb_exact(yes_ask, no_ask, sum);
            }
        }
        let profit = match decimal_sub(&Dec::one(), &sum) {
            Some(p) => p,
            None => return ArbCheck::Overflow,
        };
        proof {
            if arb_fits(yes_ask, no_ask) {
                lemma_arb_profit_value(yes_ask, no_ask, sum, profit);
            }
            if fits_common_scale(scaled_sum(yes_ask, no_ask), yes_ask, no_ask) {
                lemma_arb_decision(yes_ask, no_ask, sum, profit);
            }
        }
        if profit.is_sign_positive() {
            ArbCheck::Profit(profit)
        } else {
            ArbCheck::NoProfit
        }
    }
}

/// When `arb_fits`, the exact sum leaves `1 - sum` within range.
proof fn lemma_arb_exact(y: Dec, n: Dec, sum: Dec)
    requires
        arb_fits(y, n),
        has_scaled_value(sum, scaled_sum(y, n), y, n),
        sum.scale <= y.scale || sum.scale <= n.scale,
    ensures
        fits_common_scale(scaled_difference(Dec::spec_one(), sum), Dec::spec_one(), sum),
{
    lemma_unit_positive(y);
    lemma_unit_positive(n);
    lemma_unit_positive(sum);
    vstd::arithmetic::power::lemma_pow0(10);
    let big_e: nat = if y.scale <= n.scale { n.scale as nat } else { y.scale as nat };
    vstd::arithmetic::power::lemma_pow_increases(10, sum.scale as nat, big_e);
    let big = ten_pow(big_e);
    let u = y.unit() * n.unit();
    let s = scaled_sum(y, n);
    let (sn, su) = (sum.numerator(), sum.unit());
    assert(Dec::spec_one().numerator() == 1 && Dec::spec_one().unit() == 1);
    assert(scaled_difference(Dec::spec_one(), sum) == su - sn);
    assert(u > 0) by (nonlinear_arith)
        requires
            y.unit() > 0,
            n.unit() > 0,
            u == y.unit() * n.unit(),
    ;
    let m = magnitude_bound();
    assert(-m < su - sn < m) by (nonlinear_arith)
        requires
            sn * u == s * su,
            u > 0,
            0 < su <= big,
            -m * u < (u - s) * big < m * u,
            m > 0,
    {
        assert((su - sn) * u == su * (u - s));
        if u - s >= 0 {
            assert(su * (u - s) <= big * (u - s));
        } else {
            assert(su * (u - s) >= big * (u - s));
        }
    }
}

/// When `arb_fits`, the profit is `1 - (yes + no)` exactly.
proof fn lemma_arb_profit_value(y: Dec, n: Dec, sum: Dec, profit: Dec)
    requires
        has_scaled_value(sum, scaled_sum(y, n), y, n),
        has_scaled_value(profit, scaled_difference(Dec::spec_one(), sum), Dec::spec_one(), sum),
    ensures
        profit.numerator() * (y.unit() * n.unit()) == (y.unit() * n.unit() - scaled_sum(y, n))
            * profit.unit(),
{
    lemma_unit_positive(y);
    lemma_unit_positive(n);
    lemma_unit_positive(sum);
    lemma_unit_positive(profit);
    vstd::arithmetic::power::lemma_pow0(10);
    assert(Dec::spec_one().numerator() == 1 && Dec::spec_one().unit() == 1);
    let u = y.unit() * n.unit();
    let s = scaled_sum(y, n);
    let (sn, su, pn, pu) = (sum.numerator(), sum.unit(), profit.numerator(), profit.unit());
    assert(scaled_difference(Dec::spec_one(), sum) == su - sn);
    assert(pn * su == (su - sn) * pu);
    assert(u > 0) by (nonlinear_arith)
        requires
            y.unit() > 0,
            n.unit() > 0,
            u == y.unit() * n.unit(),
    ;
    assert(pn * u == (u - s) * pu) by (nonlinear_arith)
        requires
            sn * u == s * su,
            pn * su == (su - sn) * pu,
            su > 0,
    {
        assert(pn * u * su == (su - sn) * pu * u);
        assert((su - sn) * u == su * (u - s));
        assert(pn * u * su == (u - s) * pu * su);
    }
}

/// With the sum exact, the sign bit of `1 - sum` is clear exactly when
/// `yes + no <= 1`: the difference has the sign of `1 - sum`, and a zero
/// difference has a clear sign bit.
proof fn lemma_arb_decision(y: Dec, n: Dec, sum: Dec, profit: Dec)
    requires
        has_scaled_value(sum, scaled_sum(y, n), y, n),
        profit.numerator() > 0 <==> scaled_difference(Dec::spec_one(), sum) > 0,
        profit.numerator() < 0 <==> scaled_difference(Dec::spec_one(), sum) < 0,
        profit.spec_is_zero() ==> !profit.negative,
    ensures
        !profit.negative <==> scaled_sum(y, n) <= y.unit() * n.unit(),
{
    lemma_unit_positive(y);
    lemma_unit_positive(n);
    lemma_unit_positive(sum);
    vstd::arithmetic::power::lemma_pow0(10);
    assert(Dec::spec_one().numerator() == 1 && Dec::spec_one().unit() == 1);
    let u = y.unit() * n.unit();
    let s = scaled_sum(y, n);
    let (sn, su) = (sum.numerator(), sum.unit());
    assert(scaled_difference(Dec::spec_one(), sum) == su - sn);
    assert(u > 0) by (nonlinear_arith)
        requires
            y.unit() > 0,
            n.unit() > 0,
            u == y.unit() * n.unit(),
    ;
    assert((su - sn) * u == su * (u - s)) by (nonlinear_arith)
        requires
            sn * u == s * su,
    ;
    assert((su - sn >= 0) <==> (u - s >= 0)) by (nonlinear_arith)
        requires
            (su - sn) * u == su * (u - s),
            su > 0,
            u > 0,
    ;
    assert(!profit.negative <==> profit.numerator() >= 0);
}

/// Which side a book favours.
#[derive(Clone, Copy, Debug, PartialEq, Eq)]
pub enum Pick {
    /// The "yes" ask is above the "no" ask.
    Yes,
    /// The "no" ask is at or above the "yes" ask.
    No,
    /// One of the asks is missing.
    NoQuote,
    /// The "no" ask cannot be computed: `1 - ` the best bid overflows.
    Overflow,
}

/// Picks the dearer side of a book.
pub struct Gimme;

impl Gimme {
    /// Compares the "yes" ask with the "no" ask: `Yes` when the "yes" ask is the
    /// higher of the two, `No` otherwise.
    pub fn evaluate(orderbook: &Orderbook) -> (r: Pick)
        ensures
            !Orderbook::complement_defined(orderbook.best_bid()) ==> r is Overflow,
            Orderbook::complement_fits(orderbook.best_bid()) ==> !(r is Overflow),
            Orderbook::complement_defined(orderbook.best_bid()) ==> match (
                orderbook.best_ask(),
                orderbook.best_bid(),
            ) {
                (Some(y), Some(b)) => {
                    let n = decimal_checked_sub(Dec::spec_one()@, b@).unwrap();
                    (r is Yes || r is No) && (r is Yes <==> view_lt(n, y@))
                },
                _ => r is NoQuote,
            },
    {
        let no = match orderbook.checked_no_ask() {
            Some(n) => n,
            None => return Pick::Overflow,
        };
        match (orderbook.yes_ask(), no) {
            (Some(y), Some(n)) => {
                if decimal_less_than(&n, &y) {
                    Pick::Yes
                } else {
                    Pick::No
                }
            },
            _ => Pick::NoQuote,
        }
    }
}

/// What the signal detector reports for one market.
#[derive(Clone, Copy, Debug, PartialEq, Eq)]
pub struct Signal {
    /// `yes_ask + no_ask` when it is below one.
    pub arb_sum: Option<Dec>,
    /// Whole seconds to expiry (rounded toward zero), when the market has an expiry and both asks.
    pub seconds_left: Option<i64>,
}

/// `a / b` rounded toward zero, for `b > 0`.
pub open spec fn div_toward_zero(a: int, b: int) -> int {
    if a >= 0 {
        a / b
    } else {
        -((-a) / b)
    }
}

/// Whole seconds from `now` to `expiry`, rounded toward zero.
pub open spec fn seconds_between(expiry: Timestamp, now: Timestamp) -> int {
    div_toward_zero(expiry.total_nanos() - now.total_nanos(), 1_000_000_000)
}

/// The seconds between two instants are their whole distance in seconds, rounded
/// toward zero and never capped: for a later expiry, `r` full seconds fit in the
/// distance and `r + 1` do not; for an earlier one, the same with the signs turned.
pub proof fn law_seconds_between_rounds_toward_zero(expiry: Timestamp, now: Timestamp)
    ensures
        ({
            let d = expiry.total_nanos() - now.total_nanos();
            let r = seconds_between(expiry, now);
            &&& d >= 0 ==> r * 1_000_000_000 <= d < (r + 1) * 1_000_000_000
            &&& d < 0 ==> (r - 1) * 1_000_000_000 < d <= r * 1_000_000_000
        }),
{
    let d = expiry.total_nanos() - now.total_nanos();
    if d >= 0 {
        let q = d / 1_000_000_000;
        assert(q * 1_000_000_000 <= d < (q + 1) * 1_000_000_000) by (nonlinear_arith)
            requires
                d >= 0,
                q == d / 1_000_000_000,
        ;
    } else {
        let m = -d;
        let q = m / 1_000_000_000;
        assert(q * 1_000_000_000 <= m < (q + 1) * 1_000_000_000) by (nonlinear_arith)
            requires
                m > 0,
                q == m / 1_000_000_000,
        ;
    }
}

/// Watches the markets for arbitrage and for markets close to expiry.
pub struct SignalDetector;

impl SignalDetector {
    /// Whole seconds from `now` to `expiry`, rounded toward zero.
    pub fn seconds_left(expiry: Timestamp, now: Timestamp) -> (r: i64)
        requires
            expiry.valid(),
            now.valid(),
            i64::MIN < expiry.secs - now.secs < i64::MAX,
        ensures
            r == seconds_between(expiry, now),
            expiry.total_nanos() >= now.total_nanos() ==> r * 1_000_000_000 <= expiry.total_nanos()
                - now.total_nanos() < (r + 1) * 1_000_000_000,
            expiry.total_nanos() < now.total_nanos() ==> (r - 1) * 1_000_000_000
                < expiry.total_nanos() - now.total_nanos() <= r * 1_000_000_000,
    {
        proof {
            law_seconds_between_rounds_toward_zero(expiry, now);
        }
        let total: i128 = (expiry.secs as i128 - now.secs as i128) * 1_000_000_000
            + (expiry.nanos as i128 - now.nanos as i128);
        let r: i128 = if total >= 0 {
            total / 1_000_000_000
        } else {
            let m: i128 = -total;
            -(m / 1_000_000_000)
        };
        proof {
            let d = expiry.secs - now.secs;
            assert(total == d * 1_000_000_000 + (expiry.nanos - now.nanos));
            assert(expiry.total_nanos() - now.total_nanos() == total) by (nonlinear_arith)
                requires
                    total == (expiry.secs - now.secs) * 1_000_000_000 + (expiry.nanos - now.nanos),
            ;
            assert(d - 1 <= r <= d + 1) by (nonlinear_arith)
                requires
                    total == d * 1_000_000_000 + (expiry.nanos - now.nanos),
                    expiry.nanos < 1_000_000_000,
                    now.nanos < 1_000_000_000,
                    r == div_toward_zero(total as int, 1_000_000_000),
            ;
        }
        r as i64
    }

    /// Evaluates one market: an arbitrage when `yes + no` is below one, and the
    /// time to expiry when the market has an expiry and both asks. `None` when
    /// `yes + no` overflows a decimal.
    pub fn evaluate(expiry: Option<Timestamp>, yes: Option<Dec>, no: Option<Dec>, now: Timestamp) -> (r: Option<Signal>)
        requires
            yes matches Some(y) ==> y.valid(),
            no matches Some(n) ==> n.valid(),
            now.valid(),
            expiry matches Some(e) ==> e.valid() && i64::MIN < e.secs - now.secs < i64::MAX,
        ensures
            match (yes, no) {
                (Some(y), Some(n)) => match decimal_checked_add(y@, n@) {
                    None => r is None,
                    Some(sum) => r matches Some(sig) && (sig.arb_sum matches Some(s)
                        ==> s@ == sum) && (sig.arb_sum is Some <==> view_lt(sum, Dec::spec_one()@))
                        && (match expiry {
                        Some(e) => sig.seconds_left == Some(seconds_between(e, now) as i64),
                        None => sig.seconds_left is None,
                    }),
                },
                _ => r == Some(Signal { arb_sum: None, seconds_left: None }),
            },
            match (yes, no) {
                (Some(y), Some(n)) => fits_common_scale(scaled_sum(y, n), y, n) ==> (r matches Some(
                    sig,
                ) && (sig.arb_sum is Some <==> scaled_sum(y, n) < y.unit() * n.unit())),
                _ => true,
            },
    {
        match (yes, no) {
            (Some(y), Some(n)) => {
                let sum = match decimal_add(&y, &n) {
                    Some(s) => s,
                    None => return None,
                };
                let one = Dec::one();
                proof {
                    if fits_common_scale(scaled_sum(y, n), y, n) {
                        lemma_scaled_value_below_one(sum, scaled_sum(y, n), y, n);
                    }
                }
                let arb_sum = if decimal_less_than(&sum, &one) {
                    Some(sum)
                } else {
                    None
                };
                let seconds_left = match expiry {
                    Some(e) => Some(Self::seconds_left(e, now)),
                    None => None,
                };
                Some(Signal { arb_sum, seconds_left })
            },
            _ => Some(Signal { arb_sum: None, seconds_left: None }),
        }
    }
}

} // verus!
