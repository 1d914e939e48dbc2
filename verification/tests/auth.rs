use base64::Engine;
use gemini_book::auth::Auth;
use gemini_book::decimal::Dec;
use gemini_book::message::DepthUpdate;
use gemini_book::market_state::Market;
use gemini_book::response::Contract;

#[test]
fn credentials() {
    let a = Auth::new("key-1".to_string(), "secret-key".to_string());
    assert_eq!(a.key(), "key-1");
    assert_eq!(a.secret(), "secret-key");
}

#[test]
fn signing_at_a_nonce() {
    let a = Auth::new("key-1".to_string(), "secret-key".to_string());
    let (payload, signature) = a.sign_with_nonce(1_700_000_000_000).unwrap();
    assert_eq!(payload, "MTcwMDAwMDAwMDAwMA==");
    assert_eq!(
        signature,
        "a03ed59885e581f4e2f6fe901c8d0789224fea096ba6eb13915ba7aff85adedfa2684d324396e3279d272297ca5261ed"
    );
}

#[test]
fn signing_negative_nonce_with_empty_secret() {
    let a = Auth::new(String::new(), String::new());
    let (payload, signature) = a.sign_with_nonce(-42).unwrap();
    assert_eq!(payload, "LTQy");
    assert_eq!(
        signature,
        "9fad37971db05216b9523da1cb81d36959728fa10151600da21dec006cfdc2ffd02880fbd1ae4953f8c31e9cabb1143a"
    );
}

#[test]
fn signing_extreme_nonces() {
    let a = Auth::new("k".to_string(), "s".to_string());
    let (p, _) = a.sign_with_nonce(i64::MIN).unwrap();
    let raw = base64::engine::general_purpose::STANDARD.decode(p).unwrap();
    assert_eq!(String::from_utf8(raw).unwrap(), i64::MIN.to_string());
    let (p, _) = a.sign_with_nonce(0).unwrap();
    assert_eq!(p, "MA==");
}

#[test]
fn signing_now() {
    let a = Auth::new("key-1".to_string(), "secret-key".to_string());
    let (payload, signature) = a.sign("/v1/order/events").unwrap();
    let raw = base64::engine::general_purpose::STANDARD.decode(&payload).unwrap();
    let text = String::from_utf8(raw).unwrap();
    let nonce: i64 = text.parse().unwrap();
    assert!(nonce > 1_600_000_000_000);
    assert_eq!(a.sign_with_nonce(nonce).unwrap(), (payload, signature.clone()));
    assert_eq!(signature.len(), 96);
}

#[test]
fn new_market_has_empty_book() {
    let c = Contract { instrument_symbol: "X".to_string(), status: "active".to_string(), expiry_date: None };
    let m = Market::new(c.clone());
    assert_eq!(m.contract(), &c);
    assert!(m.orderbook().bids().is_empty());
    assert!(m.orderbook().asks().is_empty());
    assert_eq!(m.orderbook().last_sequence_id(), 0);
}

#[test]
fn resetting_a_market_keeps_its_contract() {
    let c = Contract { instrument_symbol: "X".to_string(), status: "active".to_string(), expiry_date: None };
    let mut m = Market::new(c.clone());
    let one = Dec::one();
    m.orderbook.update(DepthUpdate {
        event_type: "depthUpdate".to_string(),
        event_time_ns: 0,
        symbol: "X".to_string(),
        first_update_id: 1,
        last_update_id: 4,
        bids: vec![(Dec::new(5, 0, 0, false, 1).unwrap(), one)],
        asks: vec![],
    });
    assert_eq!(m.orderbook().bids().len(), 1);
    m.reset_orderbook();
    assert_eq!(m.contract(), &c);
    assert!(m.orderbook().bids().is_empty());
    assert_eq!(m.orderbook().last_sequence_id(), 0);
}
