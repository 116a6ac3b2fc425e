//! The trading-pair identifier used to key one order book per instrument.

use vstd::prelude::*;

verus! {

/// A market identifier: a base asset quoted in a quote asset.
#[derive(Debug, PartialEq, Eq, Hash, Clone)]
pub struct TradingPair {
    /// The asset being traded.
    pub base: String,
    /// The asset it is priced in.
    pub quote: String,
}

impl TradingPair {
    /// A pair of a base and a quote asset.
    pub fn new(base: String, quote: String) -> (r: TradingPair)
        ensures
            r.base@ == base@,
            r.quote@ == quote@,
    {
        TradingPair { base, quote }
    }
}

} // verus!
