use vstd::prelude::*;

verus! {

/// A level as it is published to subscribers.
#[derive(Debug, Clone, PartialEq)]
pub struct Level {
    pub price: i64,
    pub amount: u64,
    pub exchange: String,
}

/// One published snapshot of the aggregated book.
#[derive(Debug, Clone, PartialEq)]
pub struct Summary {
    /// Best ask price minus best bid price, or 0 when a side is empty.
    pub spread: i128,
    pub bids: Vec<Level>,
    pub asks: Vec<Level>,
}

impl Default for Summary {
    /// The empty book, published before any exchange has reported.
    fn default() -> (r: Summary)
        ensures
            r.bids@.len() == 0,
            r.asks@.len() == 0,
            r.spread == 0,
    {
        Summary { spread: 0, bids: Vec::new(), asks: Vec::new() }
    }
}

} // verus!
