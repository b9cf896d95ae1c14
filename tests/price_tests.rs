use orderbook::{
    calculate_price, parse_decimal, sort_asks, sort_bids, Exchange, Order, OrderBook, SourceFill,
    SCALE,
};

fn units(s: &str) -> u64 {
    parse_decimal(s).unwrap()
}

/// A notional given as a decimal numeral, in units of `1 / SCALE^2`.
fn notional(s: &str) -> u128 {
    units(s) as u128 * SCALE as u128
}

fn plain(price: &str, quantity: &str) -> Order {
    Order { source: None, price: units(price), quantity: units(quantity) }
}

fn tagged(source: Exchange, price: &str, quantity: &str) -> Order {
    Order { source: Some(source), price: units(price), quantity: units(quantity) }
}

#[test]
fn test_calculate_price() {
    let mut orders = vec![plain("1.0", "5.1"), plain("2.0", "7.1")];
    let result = calculate_price(&mut orders, units("10"));
    assert_eq!(result.notional, notional("14.9"));
    assert_eq!(result.filled, units("10"));
    assert!(result.complete);
}

#[test]
fn test_calculate_price_sell() {
    let mut order_book = OrderBook { bids: vec![plain("54.0", "5.0"), plain("52.0", "6.0")], asks: vec![] };
    sort_bids(&mut order_book.bids);
    let selling_price = calculate_price(&mut order_book.bids[..], units("10.0"));
    assert_eq!(selling_price.notional, notional("530.0"));
}

#[test]
fn test_calculate_price_buy() {
    let mut order_book = OrderBook { bids: vec![], asks: vec![plain("54.0", "5.0"), plain("52.0", "6.0")] };
    sort_asks(&mut order_book.asks);
    assert_eq!(order_book.asks, vec![plain("52.0", "6.0"), plain("54.0", "5.0")]);
    let buying_price = calculate_price(&mut order_book.asks[..], units("10.0"));
    assert_eq!(buying_price.notional, notional("528.0"));
}

#[test]
fn insufficient_liquidity_is_reported() {
    let bids = vec![
        tagged(Exchange::Gemini, "40050", "0.2"),
        tagged(Exchange::Coinbase, "40000", "0.1"),
        tagged(Exchange::Kraken, "40000", "0.1"),
        tagged(Exchange::Gemini, "39950", "0.2"),
        tagged(Exchange::Coinbase, "39900", "0.2"),
        tagged(Exchange::Kraken, "39900", "0.2"),
    ];
    let result = calculate_price(&bids, units("10"));
    assert!(!result.complete);
    assert_eq!(result.filled, units("1.0"));
    let expected = notional("8010") + notional("4000") + notional("4000") + notional("7990")
        + notional("7980") + notional("7980");
    assert_eq!(result.notional, expected);
    assert_eq!(
        result.per_source,
        vec![
            SourceFill { source: Exchange::Gemini, quantity: units("0.4"), worst_price: units("39950") },
            SourceFill { source: Exchange::Coinbase, quantity: units("0.3"), worst_price: units("39900") },
            SourceFill { source: Exchange::Kraken, quantity: units("0.3"), worst_price: units("39900") },
        ]
    );
}

#[test]
fn walk_stops_at_the_level_that_meets_the_target() {
    let asks = vec![
        tagged(Exchange::Kraken, "1", "4"),
        tagged(Exchange::Coinbase, "2", "6"),
        tagged(Exchange::Gemini, "3", "100"),
    ];
    let result = calculate_price(&asks, units("10"));
    assert!(result.complete);
    assert_eq!(result.filled, units("10"));
    assert_eq!(result.notional, notional("16"));
    assert_eq!(
        result.per_source,
        vec![
            SourceFill { source: Exchange::Kraken, quantity: units("4"), worst_price: units("1") },
            SourceFill { source: Exchange::Coinbase, quantity: units("6"), worst_price: units("2") },
        ]
    );
}

#[test]
fn partial_level_gives_only_the_remainder() {
    let asks = vec![tagged(Exchange::Gemini, "3", "2.5"), tagged(Exchange::Gemini, "4", "10")];
    let result = calculate_price(&asks, units("3"));
    assert_eq!(result.notional, notional("9.5"));
    assert_eq!(
        result.per_source,
        vec![SourceFill { source: Exchange::Gemini, quantity: units("3"), worst_price: units("4") }]
    );
}

#[test]
fn empty_book_fills_nothing() {
    let result = calculate_price(&[], units("10"));
    assert_eq!(result.notional, 0);
    assert_eq!(result.filled, 0);
    assert!(!result.complete);
    assert!(result.per_source.is_empty());
}

#[test]
fn largest_values_do_not_overflow() {
    let asks = vec![
        Order { source: None, price: u64::MAX, quantity: u64::MAX },
        Order { source: None, price: u64::MAX, quantity: u64::MAX },
    ];
    let result = calculate_price(&asks, u64::MAX);
    assert!(result.complete);
    assert_eq!(result.notional, u64::MAX as u128 * u64::MAX as u128);
}

#[test]
fn untagged_levels_count_in_the_total_only() {
    let asks = vec![plain("2", "1"), tagged(Exchange::Kraken, "3", "1")];
    let result = calculate_price(&asks, units("2"));
    assert_eq!(result.notional, notional("5"));
    assert_eq!(
        result.per_source,
        vec![SourceFill { source: Exchange::Kraken, quantity: units("1"), worst_price: units("3") }]
    );
}
