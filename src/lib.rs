//! Order-book aggregation across exchanges: decoding exchange snapshots into
//! one canonical book, merging the books into execution order, and walking the
//! merged book to price the execution of a target quantity.
//!
//! Prices and quantities are fixed-point integers with `FRACTION_DIGITS`
//! decimal places (one unit is `1 / SCALE`); a notional (price times
//! quantity) therefore carries `2 * FRACTION_DIGITS` decimal places.

pub mod decimal;
pub mod merge;
pub mod order;
pub mod order_book;
pub mod walker;

pub use decimal::{parse_decimal, FRACTION_DIGITS, SCALE};
pub use merge::{merge_books, sort_asks, sort_bids};
pub use order::{CoinbaseOrder, GeminiBid, GeminiOrder, KrakenPair, KrakenResult, Snapshot};
pub use order_book::{BookError, Exchange, Order, OrderBook};
pub use walker::{calculate_price, PriceWalk, SourceFill};
