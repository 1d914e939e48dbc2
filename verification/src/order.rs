//! An order as the exchange's order API describes it.
use vstd::prelude::*;

verus! {

/// A new order.
#[derive(Clone, Debug, PartialEq, Eq)]
pub struct Order {
    symbol: String,
    side: String,
    order_type: String,
    time_in_force: String,
    price: Option<String>,
    stop_price: Option<String>,
    quantity: String,
    client_order_id: Option<String>,
    event_outcome: String,
}

} // verus!
