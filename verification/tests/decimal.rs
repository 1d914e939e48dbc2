use gemini_book::decimal::Dec;
use gemini_book::strategy::{Arb, ArbCheck, Gimme, Pick, Signal, SignalDetector};
use gemini_book::orderbook::Orderbook;
use gemini_book::message::DepthUpdate;
use gemini_book::response::Timestamp;

fn d(m: u32, scale: u32) -> Dec {
    Dec::new(m, 0, 0, false, scale).unwrap()
}

fn book(bids: Vec<(Dec, Dec)>, asks: Vec<(Dec, Dec)>) -> Orderbook {
    let mut b = Orderbook::new();
    b.update(DepthUpdate {
        event_type: "depthUpdate".to_string(),
        event_time_ns: 0,
        symbol: "X".to_string(),
        first_update_id: 1,
        last_update_id: 1,
        bids,
        asks,
    });
    b
}

#[test]
fn dec_parts() {
    assert_eq!(Dec::new(1, 2, 3, true, 28).unwrap().scale, 28);
    assert!(Dec::new(1, 0, 0, false, 29).is_none());
    assert!(Dec::new(0, 0, 0, true, 3).unwrap().is_zero());
    assert!(!Dec::new(0, 1, 0, false, 3).unwrap().is_zero());
    assert!(Dec::new(0, 0, 0, true, 3).unwrap().is_sign_negative());
    assert!(d(5, 0).is_sign_positive());
    assert_eq!(Dec::one(), d(1, 0));
}

#[test]
fn arbitrage_profit() {
    assert_eq!(Arb::arb_exists(d(40, 2), d(50, 2)), ArbCheck::Profit(d(10, 2)));
    assert_eq!(Arb::arb_exists(d(60, 2), d(50, 2)), ArbCheck::NoProfit);
    // Break-even is reported: zero has a clear sign bit.
    assert_eq!(Arb::arb_exists(d(50, 2), d(50, 2)), ArbCheck::Profit(d(0, 2)));
    let huge = Dec::new(u32::MAX, u32::MAX, u32::MAX, false, 0).unwrap();
    assert_eq!(Arb::arb_exists(huge, huge), ArbCheck::Overflow);
}

#[test]
fn gimme_picks_the_dearer_side() {
    // yes ask 0.70, best bid 0.40 so no ask 0.60: yes is dearer.
    let b = book(vec![(d(40, 2), d(1, 0))], vec![(d(70, 2), d(1, 0))]);
    assert_eq!(Gimme::evaluate(&b), Pick::Yes);
    // yes ask 0.50, best bid 0.20 so no ask 0.80.
    let b = book(vec![(d(20, 2), d(1, 0))], vec![(d(50, 2), d(1, 0))]);
    assert_eq!(Gimme::evaluate(&b), Pick::No);
    // equal asks: no.
    let b = book(vec![(d(50, 2), d(1, 0))], vec![(d(5, 1), d(1, 0))]);
    assert_eq!(Gimme::evaluate(&b), Pick::No);
    let b = book(vec![], vec![(d(50, 2), d(1, 0))]);
    assert_eq!(Gimme::evaluate(&b), Pick::NoQuote);
    let huge = Dec::new(u32::MAX, u32::MAX, u32::MAX, true, 0).unwrap();
    let b = book(vec![(huge, d(1, 0))], vec![]);
    assert_eq!(Gimme::evaluate(&b), Pick::Overflow);
}

#[test]
fn seconds_left_rounds_toward_zero() {
    let t = |s: i64, n: u32| Timestamp::new(s, n).unwrap();
    assert_eq!(SignalDetector::seconds_left(t(100, 0), t(40, 0)), 60);
    assert_eq!(SignalDetector::seconds_left(t(100, 0), t(40, 500_000_000)), 59);
    assert_eq!(SignalDetector::seconds_left(t(40, 500_000_000), t(100, 0)), -59);
    assert_eq!(SignalDetector::seconds_left(t(40, 0), t(100, 0)), -60);
    assert_eq!(SignalDetector::seconds_left(t(10, 200), t(10, 100)), 0);
    assert!(Timestamp::new(1, 1_000_000_000).is_none());
}

#[test]
fn signal_detection() {
    let now = Timestamp::new(1_000, 0).unwrap();
    let exp = Timestamp::new(1_090, 0).unwrap();
    assert_eq!(
        SignalDetector::evaluate(Some(exp), Some(d(40, 2)), Some(d(50, 2)), now),
        Some(Signal { arb_sum: Some(d(90, 2)), seconds_left: Some(90) })
    );
    assert_eq!(
        SignalDetector::evaluate(None, Some(d(60, 2)), Some(d(50, 2)), now),
        Some(Signal { arb_sum: None, seconds_left: None })
    );
    assert_eq!(
        SignalDetector::evaluate(Some(exp), None, Some(d(50, 2)), now),
        Some(Signal { arb_sum: None, seconds_left: None })
    );
    let huge = Dec::new(u32::MAX, u32::MAX, u32::MAX, false, 0).unwrap();
    assert_eq!(SignalDetector::evaluate(None, Some(huge), Some(huge), now), None);
}
