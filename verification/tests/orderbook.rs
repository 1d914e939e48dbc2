use gemini_book::decimal::Dec;
use gemini_book::message::DepthUpdate;
use gemini_book::orderbook::{BookKeeper, BookOutcome, Orderbook, Sequence};
use gemini_book::utils::fmt_opt;

fn d(m: u32, scale: u32) -> Dec {
    Dec::new(m, 0, 0, false, scale).unwrap()
}

fn neg(m: u32, scale: u32) -> Dec {
    Dec::new(m, 0, 0, true, scale).unwrap()
}

fn update(first: u64, last: u64, bids: Vec<(Dec, Dec)>, asks: Vec<(Dec, Dec)>) -> DepthUpdate {
    DepthUpdate {
        event_type: "depthUpdate".to_string(),
        event_time_ns: 1,
        symbol: "btcusd".to_string(),
        first_update_id: first,
        last_update_id: last,
        bids,
        asks,
    }
}

#[test]
fn new_book_is_empty() {
    let book = Orderbook::new();
    assert!(book.bids().is_empty());
    assert!(book.asks().is_empty());
    assert_eq!(book.last_sequence_id(), 0);
    assert_eq!(book.yes_bid(), None);
    assert_eq!(book.yes_ask(), None);
    assert_eq!(book.no_bid(), None);
    assert_eq!(book.no_ask(), None);
    assert_eq!(book.spread(), None);
    assert!(!book.is_crossed());
}

#[test]
fn sequence_classification() {
    let mut book = Orderbook::new();
    assert_eq!(book.check_sequence(50, 60), Sequence::Valid);
    book.update(update(1, 10, vec![], vec![]));
    assert_eq!(book.last_sequence_id(), 10);
    assert_eq!(book.check_sequence(5, 10), Sequence::Stale);
    assert_eq!(book.check_sequence(1, 3), Sequence::Stale);
    assert_eq!(book.check_sequence(11, 15), Sequence::Valid);
    assert_eq!(book.check_sequence(8, 15), Sequence::Valid);
    assert_eq!(book.check_sequence(12, 15), Sequence::Gap);
}

#[test]
fn levels_are_kept_sorted_and_replaced() {
    let mut book = Orderbook::new();
    book.update(update(
        1,
        1,
        vec![(d(45, 2), d(10, 0)), (d(40, 2), d(5, 0)), (d(42, 2), d(7, 0))],
        vec![(d(60, 2), d(3, 0)), (d(55, 2), d(4, 0))],
    ));
    assert_eq!(
        book.bids().clone(),
        vec![(d(40, 2), d(5, 0)), (d(42, 2), d(7, 0)), (d(45, 2), d(10, 0))]
    );
    assert_eq!(book.asks().clone(), vec![(d(55, 2), d(4, 0)), (d(60, 2), d(3, 0))]);
    // 0.420 is the same price as 0.42: the quantity is replaced, the first price kept.
    book.update(update(2, 2, vec![(d(420, 3), d(9, 0))], vec![]));
    assert_eq!(
        book.bids().clone(),
        vec![(d(40, 2), d(5, 0)), (d(42, 2), d(9, 0)), (d(45, 2), d(10, 0))]
    );
}

#[test]
fn zero_and_negative_quantities_remove_levels() {
    let mut book = Orderbook::new();
    book.update(update(
        1,
        1,
        vec![(d(40, 2), d(5, 0)), (d(42, 2), d(7, 0))],
        vec![(d(60, 2), d(3, 0))],
    ));
    book.update(update(2, 2, vec![(d(4, 1), d(0, 0))], vec![(d(6, 1), neg(1, 0))]));
    assert_eq!(book.bids().clone(), vec![(d(42, 2), d(7, 0))]);
    assert!(book.asks().is_empty());
    // Removing a price that is not there, or writing a zero for it, adds nothing.
    book.update(update(3, 3, vec![(d(1, 1), d(0, 3))], vec![(d(7, 1), neg(0, 0))]));
    assert_eq!(book.bids().clone(), vec![(d(42, 2), d(7, 0))]);
    assert!(book.asks().is_empty());
}

#[test]
fn quotes_of_a_book() {
    let mut book = Orderbook::new();
    book.update(update(
        1,
        1,
        vec![(d(40, 2), d(5, 0)), (d(45, 2), d(10, 0))],
        vec![(d(60, 2), d(3, 0)), (d(55, 2), d(4, 0))],
    ));
    assert_eq!(book.yes_bid(), Some(d(45, 2)));
    assert_eq!(book.yes_ask(), Some(d(55, 2)));
    assert_eq!(book.no_bid(), Some(d(45, 2)));
    assert_eq!(book.no_ask(), Some(d(55, 2)));
    assert_eq!(book.spread(), Some(d(10, 2)));
    assert_eq!(book.checked_no_bid(), Some(Some(d(45, 2))));
    assert_eq!(book.checked_no_ask(), Some(Some(d(55, 2))));
    assert_eq!(book.checked_spread(), Some(Some(d(10, 2))));
    assert!(!book.is_crossed());
}

#[test]
fn complement_can_overflow() {
    let mut book = Orderbook::new();
    // The largest magnitude, negative: 1 - bid overflows.
    let huge = Dec::new(u32::MAX, u32::MAX, u32::MAX, true, 0).unwrap();
    book.update(update(1, 1, vec![(huge, d(1, 0))], vec![]));
    assert_eq!(book.checked_no_ask(), None);
    assert_eq!(book.checked_no_bid(), Some(None));
}

#[test]
fn crossed_book() {
    let mut book = Orderbook::new();
    book.update(update(1, 1, vec![(d(50, 2), d(1, 0))], vec![(d(5, 1), d(1, 0))]));
    assert!(book.is_crossed());
    let mut book = Orderbook::new();
    book.update(update(1, 1, vec![(d(51, 2), d(1, 0))], vec![(d(5, 1), d(1, 0))]));
    assert!(book.is_crossed());
}

#[test]
fn book_keeper_outcomes() {
    let mut book = Orderbook::new();
    let out = BookKeeper::handle_update(
        &mut book,
        update(1, 5, vec![(d(40, 2), d(1, 0))], vec![(d(70, 2), d(1, 0))]),
    );
    assert_eq!(out, BookOutcome::Quoted { yes_ask: Some(d(70, 2)), no_ask: Some(d(60, 2)) });
    assert!(!out.needs_resync());
    // A replay is stale and changes nothing.
    let out = BookKeeper::handle_update(&mut book, update(1, 5, vec![(d(10, 2), d(1, 0))], vec![]));
    assert_eq!(out, BookOutcome::Stale);
    assert_eq!(book.bids().clone(), vec![(d(40, 2), d(1, 0))]);
    // A gap is reported and changes nothing.
    let out = BookKeeper::handle_update(&mut book, update(9, 12, vec![(d(10, 2), d(1, 0))], vec![]));
    assert_eq!(out, BookOutcome::Gap);
    assert!(out.needs_resync());
    assert_eq!(book.last_sequence_id(), 5);
    // A contiguous update that crosses the book.
    let out = BookKeeper::handle_update(&mut book, update(6, 7, vec![(d(80, 2), d(1, 0))], vec![]));
    assert_eq!(out, BookOutcome::Crossed);
    assert!(out.needs_resync());
    assert_eq!(book.last_sequence_id(), 7);
}

#[test]
fn book_keeper_reports_overflowing_quote() {
    let mut book = Orderbook::new();
    let huge = Dec::new(u32::MAX, u32::MAX, u32::MAX, true, 0).unwrap();
    let out = BookKeeper::handle_update(&mut book, update(1, 1, vec![(huge, d(1, 0))], vec![]));
    assert_eq!(out, BookOutcome::QuoteOverflow);
}

#[test]
fn market_key_is_upper_case() {
    assert_eq!(BookKeeper::market_key("btcusd-yes"), "BTCUSD-YES");
    assert_eq!(BookKeeper::market_key("Abc1"), "ABC1");
}

#[test]
fn formatting_optional_prices() {
    assert_eq!(fmt_opt(Some(&d(45, 2))), "0.45000");
    assert_eq!(fmt_opt(Some(&d(123456, 6))), "0.12345");
    assert_eq!(fmt_opt(Some(&d(3, 0))), "3.00000");
    assert_eq!(fmt_opt(None), "n/a");
    assert_eq!(fmt_opt(Some(&Dec::new(5, 0, 0, true, 1).unwrap())), "-0.50000");
    assert_eq!(fmt_opt(Some(&Dec::new(0, 0, 0, false, 2).unwrap())), "0.00000");
}

#[test]
fn five_decimal_text_bound() {
    // 2^96 - 1 at scale 3 has 26 whole digits: its text fills the 32 characters.
    let widest = Dec::new(u32::MAX, u32::MAX, u32::MAX, false, 3).unwrap();
    assert!(widest.text_5_fits());
    assert_eq!(fmt_opt(Some(&widest)), "79228162514264337593543950.33500");
    let too_wide = Dec::new(u32::MAX, u32::MAX, u32::MAX, false, 2).unwrap();
    assert!(!too_wide.text_5_fits());
    assert!(d(3, 0).text_5_fits());
}

#[test]
fn applying_an_update_twice_is_applying_it_once() {
    let u = update(
        1,
        3,
        vec![(d(40, 2), d(5, 0)), (d(400, 3), d(0, 0)), (d(4, 1), d(2, 0)), (d(45, 2), d(1, 0))],
        vec![(d(60, 2), d(3, 0)), (d(61, 2), neg(1, 0))],
    );
    let mut once = Orderbook::new();
    once.update(update(0, 0, vec![(d(45, 2), d(9, 0)), (d(400, 3), d(7, 0))], vec![(d(61, 2), d(2, 0))]));
    let mut twice = Orderbook::new();
    twice.update(update(0, 0, vec![(d(45, 2), d(9, 0)), (d(400, 3), d(7, 0))], vec![(d(61, 2), d(2, 0))]));
    once.update(u.clone());
    twice.update(u.clone());
    twice.update(u);
    assert_eq!(once.bids().clone(), twice.bids().clone());
    assert_eq!(once.asks().clone(), twice.asks().clone());
    assert_eq!(once.last_sequence_id(), twice.last_sequence_id());
    assert_eq!(once.bids().clone(), vec![(d(4, 1), d(2, 0)), (d(45, 2), d(1, 0))]);
    assert_eq!(once.asks().clone(), vec![(d(60, 2), d(3, 0))]);
}

#[test]
fn exact_quotes_and_spread_sign() {
    let mut book = Orderbook::new();
    book.update(update(1, 1, vec![(d(45, 2), d(1, 0))], vec![]));
    assert_eq!(book.checked_no_ask(), Some(Some(d(55, 2))));
    let out = BookKeeper::handle_update(&mut book, update(2, 2, vec![], vec![(d(5, 1), d(1, 0))]));
    assert_eq!(out, BookOutcome::Quoted { yes_ask: Some(d(5, 1)), no_ask: Some(d(55, 2)) });
    assert_eq!(book.spread(), Some(d(5, 2)));
}
