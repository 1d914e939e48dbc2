//! A market: the contract that is traded and its order book.
use crate::orderbook::Orderbook;
use crate::response::Contract;
use vstd::prelude::*;

verus! {

/// A subscribed market.
#[derive(Debug)]
pub struct Market {
    pub contract: Contract,
    pub orderbook: Orderbook,
}

impl Market {
    pub fn contract(&self) -> (r: &Contract)
        ensures
            *r == self.contract,
    {
        &self.contract
    }

    pub fn orderbook(&self) -> (r: &Orderbook)
        ensures
            *r == self.orderbook,
    {
        &self.orderbook
    }

    /// A market for `contract` with an empty book that has applied no update.
    pub fn new(contract: Contract) -> (r: Market)
        ensures
            r.contract == contract,
            r.orderbook.bid_levels().len() == 0,
            r.orderbook.ask_levels().len() == 0,
            r.orderbook.last_id() == 0,
    {
        Market { contract, orderbook: Orderbook::new() }
    }

    /// Replaces the book by an empty one that has applied no update; the contract stays.
    pub fn reset_orderbook(&mut self)
        ensures
            final(self).contract == old(self).contract,
            final(self).orderbook.bid_levels().len() == 0,
            final(self).orderbook.ask_levels().len() == 0,
            final(self).orderbook.last_id() == 0,
    {
        self.orderbook = Orderbook::new();
    }
}

} // verus!
