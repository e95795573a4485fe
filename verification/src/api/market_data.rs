use crate::api::types::{Price, Size};
use vstd::prelude::*;

verus! {

/// Level-2 depth: parallel arrays of prices and visible volumes, best first.
#[derive(Debug, Clone)]
pub struct L2MarketData {
    pub ask_prices: Vec<Price>,
    pub ask_volumes: Vec<Size>,
    pub bid_prices: Vec<Price>,
    pub bid_volumes: Vec<Size>,
}

impl L2MarketData {
    /// Depth data without levels. `depth` is the number of levels to come:
    /// room for so many is set aside, and the arrays themselves are empty
    /// whatever it is.
    pub fn new(depth: usize) -> (r: Self)
        ensures
            r.ask_prices@.len() == 0,
            r.ask_volumes@.len() == 0,
            r.bid_prices@.len() == 0,
            r.bid_volumes@.len() == 0,
    {
        L2MarketData {
            ask_prices: Vec::with_capacity(depth),
            ask_volumes: Vec::with_capacity(depth),
            bid_prices: Vec::with_capacity(depth),
            bid_volumes: Vec::with_capacity(depth),
        }
    }
}

} // verus!
