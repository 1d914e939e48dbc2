use gemini_book::message::{Subscription, SubscriptionError};
use gemini_book::response::{Contract, Event, Timestamp};
use gemini_book::subscription_manager::{AckOutcome, Method, Tracker};

fn contract(symbol: &str) -> Contract {
    Contract {
        instrument_symbol: symbol.to_string(),
        status: "active".to_string(),
        expiry_date: Timestamp::new(1_800_000_000, 0),
    }
}

fn ack(id: u32) -> Subscription {
    Subscription { id, status: 200, error: None }
}

fn refused(id: u32) -> Subscription {
    Subscription { id, status: 400, error: Some(SubscriptionError { code: 7, msg: "bad symbol".to_string() }) }
}

#[test]
fn subscribe_request_text() {
    let mut t = Tracker::new();
    assert!(t.can_issue());
    let req = t.send_subscribe("BTCUSD".to_string(), contract("BTCUSD"));
    assert_eq!(req.id, 1);
    assert_eq!(req.method, Method::Subscribe);
    assert_eq!(req.symbol, "BTCUSD");
    assert_eq!(req.text, r#"{"id":1,"method":"subscribe","params":["BTCUSD@depth@100ms"]}"#);
    let req = t.send_unsubscribe("ETHUSD".to_string());
    assert_eq!(req.id, 2);
    assert_eq!(req.method, Method::Unsubscribe);
    assert_eq!(req.text, r#"{"id":2,"method":"unsubscribe","params":["ETHUSD@depth@100ms"]}"#);
}

#[test]
fn subscribe_then_ack_adds_market() {
    let mut t = Tracker::new();
    let req = t.send_subscribe("BTCUSD".to_string(), contract("BTCUSD"));
    let out = t.handle_ack(ack(req.id));
    assert_eq!(out, AckOutcome::Subscribed { symbol: "BTCUSD".to_string(), contract: contract("BTCUSD") });
    // The same answer again is ignored.
    assert_eq!(t.handle_ack(ack(req.id)), AckOutcome::Ignored);
    // An answer to an unknown request is ignored.
    assert_eq!(t.handle_ack(ack(99)), AckOutcome::Ignored);
}

#[test]
fn refused_request_changes_nothing() {
    let mut t = Tracker::new();
    let req = t.send_subscribe("BTCUSD".to_string(), contract("BTCUSD"));
    assert_eq!(t.handle_ack(refused(req.id)), AckOutcome::Refused { msg: "bad symbol".to_string() });
    // The symbol was never subscribed, so it cannot be resynced.
    assert!(t.handle_resync("BTCUSD".to_string()).is_none());
    assert_eq!(t.handle_ack(ack(req.id)), AckOutcome::Ignored);
}

#[test]
fn failed_send_forgets_request() {
    let mut t = Tracker::new();
    let req = t.send_subscribe("BTCUSD".to_string(), contract("BTCUSD"));
    t.subscribe_failed(req.id);
    assert_eq!(t.handle_ack(ack(req.id)), AckOutcome::Ignored);
}

#[test]
fn resync_is_deduplicated() {
    let mut t = Tracker::new();
    let req = t.send_subscribe("BTCUSD".to_string(), contract("BTCUSD"));
    t.handle_ack(ack(req.id));
    let resub = t.handle_resync("BTCUSD".to_string()).unwrap();
    assert_eq!(resub.id, 2);
    assert_eq!(resub.method, Method::Subscribe);
    assert_eq!(resub.text, r#"{"id":2,"method":"subscribe","params":["BTCUSD@depth@100ms"]}"#);
    assert!(t.handle_resync("BTCUSD".to_string()).is_none());
    assert_eq!(t.handle_ack(ack(resub.id)), AckOutcome::Resubscribed { symbol: "BTCUSD".to_string() });
    // Subscribed again, so a new resync is due.
    let again = t.handle_resync("BTCUSD".to_string()).unwrap();
    assert_eq!(again.id, 3);
    assert!(t.handle_resync("ETHUSD".to_string()).is_none());
}

#[test]
fn unsubscribe_then_ack_removes_market() {
    let mut t = Tracker::new();
    let req = t.send_subscribe("BTCUSD".to_string(), contract("BTCUSD"));
    t.handle_ack(ack(req.id));
    let unsub = t.send_unsubscribe("BTCUSD".to_string());
    // While unsubscribing, a resync is still due (the symbol is not resyncing).
    assert_eq!(t.handle_ack(ack(unsub.id)), AckOutcome::Unsubscribed { symbol: "BTCUSD".to_string() });
    assert!(t.handle_resync("BTCUSD".to_string()).is_none());
}

#[test]
fn refresh_plan() {
    let mut t = Tracker::new();
    for s in ["AAA", "BBB"] {
        let req = t.send_subscribe(s.to_string(), contract(s));
        t.handle_ack(ack(req.id));
    }
    let events = vec![
        Event { ticker: "E1".to_string(), status: "active".to_string(), contracts: vec![contract("CCC"), contract("AAA")] },
        Event { ticker: "E2".to_string(), status: "active".to_string(), contracts: vec![contract("CCC"), contract("DDD")] },
    ];
    let plan = t.refresh(events);
    let mut unsub = plan.unsubscribe.clone();
    unsub.sort();
    assert_eq!(unsub, vec!["AAA".to_string(), "BBB".to_string()]);
    let subs: Vec<String> = plan.subscribe.iter().map(|c| c.instrument_symbol.clone()).collect();
    assert_eq!(subs, vec!["CCC".to_string(), "AAA".to_string(), "DDD".to_string()]);
}

#[test]
fn contract_symbol_equality() {
    let c = contract("BTCUSD");
    assert!(c.eq("BTCUSD"));
    assert!(!c.eq("btcusd"));
    assert_eq!(c.clone(), c);
}

#[test]
fn subscription_error_flag() {
    assert!(!ack(1).is_err());
    assert!(refused(1).is_err());
}

#[test]
fn request_topic_is_escaped() {
    let mut t = Tracker::new();
    let req = t.send_subscribe("A\"B\\C".to_string(), contract("A\"B\\C"));
    assert_eq!(req.text, r#"{"id":1,"method":"subscribe","params":["A\"B\\C@depth@100ms"]}"#);
}

#[test]
fn request_topic_escapes_control_characters() {
    let mut t = Tracker::new();
    let symbol = "a\nb\t\u{1}\u{1f}".to_string();
    let req = t.send_subscribe(symbol.clone(), contract(&symbol));
    assert_eq!(
        req.text,
        r#"{"id":1,"method":"subscribe","params":["a\nb\t\u0001\u001f@depth@100ms"]}"#
    );
}
