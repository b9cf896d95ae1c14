use vstd::prelude::*;

use crate::decimal::{decimal_result, parse_decimal};
use crate::order_book::{all_from, all_valid, BookError, Exchange, Order, OrderBook};

verus! {

/// A Coinbase level-2 snapshot: levels as `(price, size, order count)`.
#[derive(Clone, Debug)]
pub struct CoinbaseOrder {
    pub bids: Vec<(String, String, u64)>,
    pub asks: Vec<(String, String, u64)>,
}

/// A Gemini book snapshot: levels as objects.
#[derive(Clone, Debug)]
pub struct GeminiOrder {
    pub bids: Vec<GeminiBid>,
    pub asks: Vec<GeminiBid>,
}

/// One level of a Gemini snapshot.
#[derive(Clone, Debug)]
pub struct GeminiBid {
    pub price: String,
    pub amount: String,
}

/// A Kraken depth snapshot: its `result` mapping, entry by entry, from the
/// pair identifier (such as "XXBTZUSD") to that pair's book.
#[derive(Clone, Debug)]
pub struct KrakenResult {
    pub result: Vec<(String, KrakenPair)>,
}

/// The book of one Kraken pair: levels as `(price, volume, timestamp)`.
#[derive(Clone, Debug)]
pub struct KrakenPair {
    pub bids: Vec<(String, String, u64)>,
    pub asks: Vec<(String, String, u64)>,
}

/// A raw snapshot of any of the supported exchanges.
#[derive(Clone, Debug)]
pub enum Snapshot {
    Coinbase(CoinbaseOrder),
    Gemini(GeminiOrder),
    Kraken(KrakenResult),
}

/// The textual price and quantity of each level of a snapshot side.
pub type RawLevels = Seq<(Seq<char>, Seq<char>)>;

pub open spec fn tuple_levels(v: Seq<(String, String, u64)>) -> RawLevels {
    Seq::new(v.len(), |i: int| (v[i].0@, v[i].1@))
}

pub open spec fn gemini_levels(v: Seq<GeminiBid>) -> RawLevels {
    Seq::new(v.len(), |i: int| (v[i].price@, v[i].amount@))
}

/// Decoding one level: its price, then its quantity, must be numerals, and
/// both must be positive.
pub open spec fn level_result(price: Seq<char>, amount: Seq<char>, src: Exchange) -> Result<
    Order,
    BookError,
> {
    match decimal_result(price) {
        Err(e) => Err(e),
        Ok(p) => match decimal_result(amount) {
            Err(e) => Err(e),
            Ok(q) => if p == 0 || q == 0 {
                Err(BookError::NotPositive)
            } else {
                Ok(Order { source: Some(src), price: p, quantity: q })
            },
        },
    }
}

/// Decoding the first `n` levels of a side: the orders in the order received,
/// or the error of the first level that fails.
pub open spec fn decode_levels(raw: RawLevels, src: Exchange, n: int) -> Result<
    Seq<Order>,
    BookError,
>
    decreases n,
{
    if n <= 0 {
        Ok(Seq::empty())
    } else {
        match decode_levels(raw, src, n - 1) {
            Err(e) => Err(e),
            Ok(v) => match level_result(raw[n - 1].0, raw[n - 1].1, src) {
                Err(e) => Err(e),
                Ok(o) => Ok(v.push(o)),
            },
        }
    }
}

pub open spec fn decode_side(raw: RawLevels, src: Exchange) -> Result<Seq<Order>, BookError> {
    decode_levels(raw, src, raw.len() as int)
}

/// Decoding a whole snapshot: its bids, then its asks.
pub open spec fn decode_book(bids: RawLevels, asks: RawLevels, src: Exchange) -> Result<
    (Seq<Order>, Seq<Order>),
    BookError,
> {
    match decode_side(bids, src) {
        Err(e) => Err(e),
        Ok(b) => match decode_side(asks, src) {
            Err(e) => Err(e),
            Ok(a) => Ok((b, a)),
        },
    }
}

/// A decoded book as its two sides.
pub open spec fn book_view(r: Result<OrderBook, BookError>) -> Result<
    (Seq<Order>, Seq<Order>),
    BookError,
> {
    match r {
        Ok(b) => Ok((b.bids@, b.asks@)),
        Err(e) => Err(e),
    }
}

/// Decoding a Kraken snapshot: the pair mapping must hold exactly one entry.
pub open spec fn decode_kraken(result: Seq<(String, KrakenPair)>) -> Result<
    (Seq<Order>, Seq<Order>),
    BookError,
> {
    if result.len() != 1 {
        Err(BookError::Shape)
    } else {
        decode_book(
            tuple_levels(result[0].1.bids@),
            tuple_levels(result[0].1.asks@),
            Exchange::Kraken,
        )
    }
}

/// Every decoded order is well formed and tagged with the adapter's exchange;
/// a side decodes only where each of its fields is a numeral, so a malformed
/// field is rejected rather than read as zero.
pub proof fn lemma_decoded_levels_valid(raw: RawLevels, src: Exchange, n: int)
    requires
        0 <= n <= raw.len(),
    ensures
        decode_levels(raw, src, n) is Ok ==> {
            let v = decode_levels(raw, src, n)->Ok_0;
            &&& v.len() == n
            &&& all_valid(v)
            &&& all_from(v, src)
        },
        forall|i: int|
            0 <= i < n && (decimal_result(#[trigger] raw[i].0) is Err || decimal_result(raw[i].1) is Err)
                ==> decode_levels(raw, src, n) is Err,
    decreases n,
{
    if n > 0 {
        lemma_decoded_levels_valid(raw, src, n - 1);
    }
}

/// Decodes one level.
fn decode_level(price: &str, amount: &str, src: Exchange) -> (r: Result<Order, BookError>)
    ensures
        r == level_result(price@, amount@, src),
{
    let p = match parse_decimal(price) {
        Ok(p) => p,
        Err(e) => return Err(e),
    };
    let q = match parse_decimal(amount) {
        Ok(q) => q,
        Err(e) => return Err(e),
    };
    if p == 0 || q == 0 {
        Err(BookError::NotPositive)
    } else {
        Ok(Order { source: Some(src), price: p, quantity: q })
    }
}

/// Decodes a side given as `(price, quantity, _)` tuples, stopping at the first
/// level that fails.
fn decode_tuples(levels: &Vec<(String, String, u64)>, src: Exchange) -> (r: Result<
    Vec<Order>,
    BookError,
>)
    ensures
        match r {
            Ok(v) => decode_side(tuple_levels(levels@), src) == Ok::<Seq<Order>, BookError>(v@),
            Err(e) => decode_side(tuple_levels(levels@), src) == Err::<Seq<Order>, BookError>(e),
        },
{
    let ghost raw = tuple_levels(levels@);
    let mut out: Vec<Order> = Vec::new();
    let mut i: usize = 0;
    while i < levels.len()
        invariant
            i <= levels@.len(),
            raw == tuple_levels(levels@),
            decode_levels(raw, src, i as int) == Ok::<Seq<Order>, BookError>(out@),
        decreases levels@.len() - i,
    {
        let level = &levels[i];
        match decode_level(level.0.as_str(), level.1.as_str(), src) {
            Ok(o) => out.push(o),
            Err(e) => {
                proof {
                    lemma_error_persists(raw, src, i as int + 1, raw.len() as int);
                }
                return Err(e);
            },
        }
        i = i + 1;
    }
    Ok(out)
}

/// Decodes a Gemini side, stopping at the first level that fails.
fn decode_gemini_levels(levels: &Vec<GeminiBid>, src: Exchange) -> (r: Result<
    Vec<Order>,
    BookError,
>)
    ensures
        match r {
            Ok(v) => decode_side(gemini_levels(levels@), src) == Ok::<Seq<Order>, BookError>(v@),
            Err(e) => decode_side(gemini_levels(levels@), src) == Err::<Seq<Order>, BookError>(e),
        },
{
    let ghost raw = gemini_levels(levels@);
    let mut out: Vec<Order> = Vec::new();
    let mut i: usize = 0;
    while i < levels.len()
        invariant
            i <= levels@.len(),
            raw == gemini_levels(levels@),
            decode_levels(raw, src, i as int) == Ok::<Seq<Order>, BookError>(out@),
        decreases levels@.len() - i,
    {
        let level = &levels[i];
        match decode_level(level.price.as_str(), level.amount.as_str(), src) {
            Ok(o) => out.push(o),
            Err(e) => {
                proof {
                    lemma_error_persists(raw, src, i as int + 1, raw.len() as int);
                }
                return Err(e);
            },
        }
        i = i + 1;
    }
    Ok(out)
}

impl CoinbaseOrder {
    /// Decodes the snapshot into a book tagged `Exchange::Coinbase`, keeping
    /// the order of its levels; the first malformed level aborts decoding.
    pub fn to_order_book(&self) -> (r: Result<OrderBook, BookError>)
        ensures
            book_view(r) == decode_book(
                tuple_levels(self.bids@),
                tuple_levels(self.asks@),
                Exchange::Coinbase,
            ),
            r is Ok ==> r->Ok_0.valid(),
    {
        proof {
            lemma_decoded_levels_valid(tuple_levels(self.bids@), Exchange::Coinbase, self.bids@.len() as int);
            lemma_decoded_levels_valid(tuple_levels(self.asks@), Exchange::Coinbase, self.asks@.len() as int);
        }
        let bids = match decode_tuples(&self.bids, Exchange::Coinbase) {
            Ok(v) => v,
            Err(e) => return Err(e),
        };
        let asks = match decode_tuples(&self.asks, Exchange::Coinbase) {
            Ok(v) => v,
            Err(e) => return Err(e),
        };
        Ok(OrderBook { bids, asks })
    }
}

impl GeminiOrder {
    /// Decodes the snapshot into a book tagged `Exchange::Gemini`, keeping the
    /// order of its levels; the first malformed level aborts decoding.
    pub fn to_order_book(&self) -> (r: Result<OrderBook, BookError>)
        ensures
            book_view(r) == decode_book(
                gemini_levels(self.bids@),
                gemini_levels(self.asks@),
                Exchange::Gemini,
            ),
            r is Ok ==> r->Ok_0.valid(),
    {
        proof {
            lemma_decoded_levels_valid(gemini_levels(self.bids@), Exchange::Gemini, self.bids@.len() as int);
            lemma_decoded_levels_valid(gemini_levels(self.asks@), Exchange::Gemini, self.asks@.len() as int);
        }
        let bids = match decode_gemini_levels(&self.bids, Exchange::Gemini) {
            Ok(v) => v,
            Err(e) => return Err(e),
        };
        let asks = match decode_gemini_levels(&self.asks, Exchange::Gemini) {
            Ok(v) => v,
            Err(e) => return Err(e),
        };
        Ok(OrderBook { bids, asks })
    }
}

impl KrakenResult {
    /// Decodes the snapshot into a book tagged `Exchange::Kraken`. The pair
    /// mapping must hold exactly one entry, whatever its key; otherwise the
    /// result is `BookError::Shape`.
    pub fn to_order_book(&self) -> (r: Result<OrderBook, BookError>)
        ensures
            book_view(r) == decode_kraken(self.result@),
            r is Ok ==> r->Ok_0.valid(),
    {
        if self.result.len() != 1 {
            return Err(BookError::Shape);
        }
        let pair = &self.result[0].1;
        proof {
            lemma_decoded_levels_valid(tuple_levels(pair.bids@), Exchange::Kraken, pair.bids@.len() as int);
            lemma_decoded_levels_valid(tuple_levels(pair.asks@), Exchange::Kraken, pair.asks@.len() as int);
        }
        let bids = match decode_tuples(&pair.bids, Exchange::Kraken) {
            Ok(v) => v,
            Err(e) => return Err(e),
        };
        let asks = match decode_tuples(&pair.asks, Exchange::Kraken) {
            Ok(v) => v,
            Err(e) => return Err(e),
        };
        Ok(OrderBook { bids, asks })
    }
}

/// What decoding a snapshot gives, by its exchange's format.
pub open spec fn decode_snapshot(s: Snapshot) -> Result<(Seq<Order>, Seq<Order>), BookError> {
    match s {
        Snapshot::Coinbase(c) => decode_book(
            tuple_levels(c.bids@),
            tuple_levels(c.asks@),
            Exchange::Coinbase,
        ),
        Snapshot::Gemini(g) => decode_book(
            gemini_levels(g.bids@),
            gemini_levels(g.asks@),
            Exchange::Gemini,
        ),
        Snapshot::Kraken(k) => decode_kraken(k.result@),
    }
}

impl Snapshot {
    /// The exchange whose format the snapshot has.
    pub fn exchange(&self) -> (r: Exchange)
        ensures
            r == match self {
                Snapshot::Coinbase(_) => Exchange::Coinbase,
                Snapshot::Gemini(_) => Exchange::Gemini,
                Snapshot::Kraken(_) => Exchange::Kraken,
            },
    {
        match self {
            Snapshot::Coinbase(_) => Exchange::Coinbase,
            Snapshot::Gemini(_) => Exchange::Gemini,
            Snapshot::Kraken(_) => Exchange::Kraken,
        }
    }

    /// Decodes the snapshot with its exchange's decoder.
    pub fn decode(&self) -> (r: Result<OrderBook, BookError>)
        ensures
            book_view(r) == decode_snapshot(*self),
            r is Ok ==> r->Ok_0.valid(),
    {
        match self {
            Snapshot::Coinbase(c) => c.to_order_book(),
            Snapshot::Gemini(g) => g.to_order_book(),
            Snapshot::Kraken(k) => k.to_order_book(),
        }
    }
}

/// The first failing level decides the outcome of the whole side.
proof fn lemma_error_persists(raw: RawLevels, src: Exchange, n: int, m: int)
    requires
        0 < n <= m,
        decode_levels(raw, src, n) is Err,
    ensures
        decode_levels(raw, src, m) == decode_levels(raw, src, n),
    decreases m - n,
{
    if n < m {
        lemma_error_persists(raw, src, n, m - 1);
    }
}

} // verus!
