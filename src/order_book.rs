use vstd::prelude::*;

verus! {

/// The exchanges whose snapshot formats the library decodes; used as the
/// source tag of an order.
#[derive(Clone, Copy, Debug, PartialEq, Eq, Structural)]
pub enum Exchange {
    Coinbase,
    Gemini,
    Kraken,
}

/// Why a snapshot could not be turned into an order book.
#[derive(Clone, Copy, Debug, PartialEq, Eq, Structural)]
pub enum BookError {
    /// A price or quantity field is not a decimal numeral that the
    /// fixed-point type can hold.
    Parse,
    /// A price or quantity is zero.
    NotPositive,
    /// The snapshot does not have the expected shape (a pair-keyed mapping
    /// with zero or several entries).
    Shape,
}

/// One price level: `price` and `quantity` in units of `1 / SCALE`, and the
/// exchange it came from, where known.
#[derive(Clone, Copy, Debug, PartialEq)]
pub struct Order {
    pub source: Option<Exchange>,
    pub price: u64,
    pub quantity: u64,
}

/// The two sides of a book. A freshly decoded book keeps the order of the
/// snapshot; only merging imposes execution order.
#[derive(Clone, Debug)]
pub struct OrderBook {
    pub bids: Vec<Order>,
    pub asks: Vec<Order>,
}

impl Order {
    /// A well-formed order has a strictly positive price and quantity.
    pub open spec fn valid(self) -> bool {
        self.price > 0 && self.quantity > 0
    }
}

/// Every order of `s` is well formed.
pub open spec fn all_valid(s: Seq<Order>) -> bool {
    forall|i: int| 0 <= i < s.len() ==> (#[trigger] s[i]).valid()
}

/// Every order of `s` carries the source tag `src`.
pub open spec fn all_from(s: Seq<Order>, src: Exchange) -> bool {
    forall|i: int| 0 <= i < s.len() ==> (#[trigger] s[i]).source == Some(src)
}

impl OrderBook {
    /// Both sides hold well-formed orders only.
    pub open spec fn valid(&self) -> bool {
        all_valid(self.bids@) && all_valid(self.asks@)
    }
}

} // verus!
