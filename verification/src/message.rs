//! The messages of the market-data websocket, as plain values.
use crate::decimal::Dec;
use vstd::prelude::*;

verus! {

/// `serde_json::Value`, a parsed JSON document; carried, never looked into.
#[verifier::external_type_specification]
#[verifier::external_body]
pub struct ExJsonValue(serde_json::Value);

/// A message of the feed: an answer to a (un)subscription request, a depth
/// update, a best-price ticker, or anything else, kept as parsed JSON.
pub enum Message {
    Subscription(Subscription),
    DepthUpdate(DepthUpdate),
    BookTicker(BookTicker),
    Unknown(serde_json::Value),
}

/// Why the server refused a request.
#[derive(Clone, Debug, PartialEq, Eq)]
pub struct SubscriptionError {
    pub code: i16,
    pub msg: String,
}

/// The server's answer to the request with the given id.
#[derive(Clone, Debug, PartialEq, Eq)]
pub struct Subscription {
    pub id: u32,
    pub status: i16,
    pub error: Option<SubscriptionError>,
}

impl Subscription {
    /// True when the server refused the request.
    pub fn is_err(&self) -> (r: bool)
        ensures
            r == self.error is Some,
    {
        self.error.is_some()
    }
}

/// One price level of a book.
#[derive(Clone, Copy, Debug, PartialEq, Eq)]
pub struct PriceLevel {
    price: Dec,
    quantity: Dec,
}

/// A batch of level changes for one symbol, covering the update ids
/// `first_update_id ..= last_update_id`. Each level is `(price, quantity)`.
#[derive(Clone, Debug, PartialEq, Eq)]
pub struct DepthUpdate {
    pub event_type: String,
    pub event_time_ns: u64,
    pub symbol: String,
    pub first_update_id: u64,
    pub last_update_id: u64,
    pub bids: Vec<(Dec, Dec)>,
    pub asks: Vec<(Dec, Dec)>,
}

/// The best bid and ask of a symbol, as the feed writes them.
#[derive(Clone, Debug, PartialEq, Eq)]
pub struct BookTicker {
    pub update_id: usize,
    pub event_time_ns: u64,
    pub symbol: String,
    pub best_bid_price: Option<String>,
    pub best_bid_quanitity: Option<String>,
    pub best_ask_price: Option<String>,
    pub best_ask_quanitity: Option<String>,
}

} // verus!
