use orderbook::{
    merge_books, parse_decimal, sort_asks, sort_bids, CoinbaseOrder, Exchange, GeminiBid,
    GeminiOrder, KrakenPair, KrakenResult, Order, OrderBook,
};

fn units(s: &str) -> u64 {
    parse_decimal(s).unwrap()
}

fn tagged(source: Exchange, price: &str, quantity: &str) -> Order {
    Order { source: Some(source), price: units(price), quantity: units(quantity) }
}

fn plain(price: &str, quantity: &str) -> Order {
    Order { source: None, price: units(price), quantity: units(quantity) }
}

fn tuple(price: &str, quantity: &str, n: u64) -> (String, String, u64) {
    (price.to_string(), quantity.to_string(), n)
}

#[test]
fn test_calculate_merged_bids() {
    let coinbase_order = CoinbaseOrder {
        bids: vec![tuple("40000", "0.1", 1), tuple("39900", "0.2", 2)],
        asks: vec![tuple("40001", "0.1", 1), tuple("39901", "0.2", 2)],
    };
    let gemini_order = GeminiOrder {
        bids: vec![
            GeminiBid { price: "40050".into(), amount: "0.2".into() },
            GeminiBid { price: "39950".into(), amount: "0.2".into() },
        ],
        asks: vec![
            GeminiBid { price: "40051".into(), amount: "1.2".into() },
            GeminiBid { price: "39951".into(), amount: "1.2".into() },
        ],
    };
    let kraken_order = KrakenResult {
        result: vec![(
            "XXBTZUSD".to_string(),
            KrakenPair {
                bids: vec![tuple("40000", "0.1", 1), tuple("39900", "0.2", 2)],
                asks: vec![tuple("40010", "0.1", 1), tuple("39910", "0.2", 2)],
            },
        )],
    };

    let coinbase_book = coinbase_order.to_order_book().unwrap();
    let gemini_book = gemini_order.to_order_book().unwrap();
    let kraken_book = kraken_order.to_order_book().unwrap();

    let merged = merge_books(&[coinbase_book, gemini_book, kraken_book]);

    let expected_merged_bids = vec![
        tagged(Exchange::Gemini, "40050.0", "0.2"),
        tagged(Exchange::Coinbase, "40000.0", "0.1"),
        tagged(Exchange::Kraken, "40000.0", "0.1"),
        tagged(Exchange::Gemini, "39950.0", "0.2"),
        tagged(Exchange::Coinbase, "39900.0", "0.2"),
        tagged(Exchange::Kraken, "39900.0", "0.2"),
    ];
    assert_eq!(merged.bids, expected_merged_bids, "Bids merging failed");
}

#[test]
fn merged_asks_lowest_first() {
    let coinbase = CoinbaseOrder {
        bids: vec![],
        asks: vec![tuple("40001", "0.1", 1), tuple("39901", "0.2", 2)],
    };
    let kraken = KrakenResult {
        result: vec![(
            "XXBTZUSD".to_string(),
            KrakenPair { bids: vec![], asks: vec![tuple("40010", "0.1", 1), tuple("39910", "0.2", 2)] },
        )],
    };
    let merged =
        merge_books(&[coinbase.to_order_book().unwrap(), kraken.to_order_book().unwrap()]);
    let prices: Vec<u64> = merged.asks.iter().map(|o| o.price).collect();
    assert_eq!(prices, vec![units("39901"), units("39910"), units("40001"), units("40010")]);
    assert!(merged.bids.is_empty());
}

#[test]
fn merge_keeps_equal_levels_of_different_exchanges() {
    let a = OrderBook { bids: vec![tagged(Exchange::Coinbase, "100", "1")], asks: vec![] };
    let b = OrderBook { bids: vec![tagged(Exchange::Kraken, "100", "1")], asks: vec![] };
    let merged = merge_books(&[a, b]);
    assert_eq!(
        merged.bids,
        vec![tagged(Exchange::Coinbase, "100", "1"), tagged(Exchange::Kraken, "100", "1")]
    );
}

#[test]
fn merge_of_no_books_is_empty() {
    let merged = merge_books(&[]);
    assert!(merged.bids.is_empty());
    assert!(merged.asks.is_empty());
}

#[test]
fn test_sorting_asks() {
    let mut merged_asks = vec![plain("2.0", "7.0"), plain("1.0", "5.0"), plain("3.0", "6.0")];
    sort_asks(&mut merged_asks);
    assert_eq!(merged_asks[0].price, units("1.0"));
    assert_eq!(merged_asks[1].price, units("2.0"));
    assert_eq!(merged_asks[2].price, units("3.0"));
}

#[test]
fn test_sorting_bids() {
    let mut merged_bids = vec![plain("2.0", "7.0"), plain("1.0", "5.0"), plain("3.0", "6.0")];
    sort_bids(&mut merged_bids);
    assert_eq!(merged_bids[0].price, units("3.0"));
    assert_eq!(merged_bids[1].price, units("2.0"));
    assert_eq!(merged_bids[2].price, units("1.0"));
}

#[test]
fn sorting_twice_changes_nothing() {
    let mut asks = vec![
        tagged(Exchange::Gemini, "2", "1"),
        tagged(Exchange::Kraken, "1", "1"),
        tagged(Exchange::Coinbase, "2", "3"),
        tagged(Exchange::Kraken, "1", "2"),
    ];
    sort_asks(&mut asks);
    let once = asks.clone();
    sort_asks(&mut asks);
    assert_eq!(asks, once);
    assert_eq!(
        once,
        vec![
            tagged(Exchange::Kraken, "1", "1"),
            tagged(Exchange::Kraken, "1", "2"),
            tagged(Exchange::Gemini, "2", "1"),
            tagged(Exchange::Coinbase, "2", "3"),
        ]
    );
    let mut bids = once.clone();
    sort_bids(&mut bids);
    let once_bids = bids.clone();
    sort_bids(&mut bids);
    assert_eq!(bids, once_bids);
    assert_eq!(bids[0], tagged(Exchange::Gemini, "2", "1"));
}
