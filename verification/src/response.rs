//! The records of the exchange's REST answers about prediction-market events.
use vstd::prelude::*;

verus! {

/// An instant as whole seconds since the Unix epoch and the nanoseconds past that second.
#[derive(Clone, Copy, Debug, PartialEq, Eq)]
pub struct Timestamp {
    pub secs: i64,
    pub nanos: u32,
}

impl Timestamp {
    /// The nanoseconds are below one second.
    pub open spec fn valid(self) -> bool {
        self.nanos < 1_000_000_000
    }

    /// The instant in nanoseconds since the epoch.
    pub open spec fn total_nanos(self) -> int {
        self.secs * 1_000_000_000 + self.nanos
    }

    /// Builds an instant; `None` when `nanos` is not below one second.
    pub fn new(secs: i64, nanos: u32) -> (r: Option<Timestamp>)
        ensures
            nanos < 1_000_000_000 ==> r == Some(Timestamp { secs, nanos }),
            nanos >= 1_000_000_000 ==> r is None,
    {
        if nanos < 1_000_000_000 {
            Some(Timestamp { secs, nanos })
        } else {
            None
        }
    }
}

/// The page of an event listing.
#[derive(Clone, Copy, Debug, PartialEq, Eq)]
pub struct Pagination {
    pub limit: usize,
    pub offset: u64,
    pub total: u64,
}

/// One tradable contract of an event.
#[derive(Debug, PartialEq, Eq)]
pub struct Contract {
    pub instrument_symbol: String,
    pub status: String,
    pub expiry_date: Option<Timestamp>,
}

impl Clone for Contract {
    fn clone(&self) -> (r: Contract)
        ensures
            r == *self,
    {
        Contract {
            instrument_symbol: self.instrument_symbol.clone(),
            status: self.status.clone(),
            expiry_date: self.expiry_date,
        }
    }
}

impl Contract {
    /// True when the contract trades under `symbol`.
    pub fn eq(&self, symbol: &str) -> (r: bool)
        ensures
            r == (self.instrument_symbol@ == symbol@),
    {
        let other = String::from_str(symbol);
        self.instrument_symbol == other
    }
}

/// The answer to a request for one event.
#[derive(Clone, Debug, PartialEq, Eq)]
pub struct GetEventByTicker {
    pub contracts: Vec<Contract>,
}

/// The answer to a listing of events.
#[derive(Clone, Debug, PartialEq, Eq)]
pub struct ListMarketEvents {
    pub data: Vec<Event>,
    pub pagination: Pagination,
}

/// An event and its contracts.
#[derive(Clone, Debug, PartialEq, Eq)]
pub struct Event {
    pub ticker: String,
    pub status: String,
    pub contracts: Vec<Contract>,
}

} // verus!
