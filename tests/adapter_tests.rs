use orderbook::{
    parse_decimal, BookError, CoinbaseOrder, Exchange, GeminiBid, GeminiOrder, KrakenPair,
    KrakenResult, Order, Snapshot, SCALE,
};

fn tuple(price: &str, quantity: &str, n: u64) -> (String, String, u64) {
    (price.to_string(), quantity.to_string(), n)
}

fn kraken_pair() -> KrakenPair {
    KrakenPair {
        bids: vec![tuple("39971.20000", "2.078", 1706112894)],
        asks: vec![tuple("39971.30000", "2.606", 1706112893)],
    }
}

#[test]
fn decimal_values() {
    assert_eq!(parse_decimal("39982.8"), Ok(3_998_280_000_000));
    assert_eq!(parse_decimal("0.01884514"), Ok(1_884_514));
    assert_eq!(parse_decimal("39971.30000"), Ok(3_997_130_000_000));
    assert_eq!(parse_decimal("10"), Ok(10 * SCALE));
    assert_eq!(parse_decimal("0"), Ok(0));
    assert_eq!(parse_decimal("007.50"), Ok(750_000_000));
    assert_eq!(parse_decimal("184467440737.09551615"), Ok(u64::MAX));
}

#[test]
fn decimal_rejects_malformed() {
    for s in [
        "", ".", "abc", "1.", ".5", "-1", "+1", "1e5", "1.2.3", " 1", "1 ", "NaN", "inf",
        "1.123456789", "184467440737.09551616", "99999999999999999999999",
    ] {
        assert_eq!(parse_decimal(s), Err(BookError::Parse), "{}", s);
    }
}

#[test]
fn coinbase_levels_in_received_order() {
    let raw = CoinbaseOrder {
        bids: vec![tuple("39982.8", "0.01884514", 1), tuple("39990", "1", 2)],
        asks: vec![tuple("39985.08", "0.07946493", 1)],
    };
    let book = raw.to_order_book().unwrap();
    assert_eq!(
        book.bids,
        vec![
            Order { source: Some(Exchange::Coinbase), price: 3_998_280_000_000, quantity: 1_884_514 },
            Order { source: Some(Exchange::Coinbase), price: 3_999_000_000_000, quantity: SCALE },
        ]
    );
    assert_eq!(
        book.asks,
        vec![Order { source: Some(Exchange::Coinbase), price: 3_998_508_000_000, quantity: 7_946_493 }]
    );
}

#[test]
fn gemini_levels_tagged() {
    let raw = GeminiOrder {
        bids: vec![GeminiBid { price: "39950.0".into(), amount: "0.00011063".into() }],
        asks: vec![GeminiBid { price: "39950.01".into(), amount: "0.10070212".into() }],
    };
    let book = raw.to_order_book().unwrap();
    assert_eq!(
        book.bids,
        vec![Order { source: Some(Exchange::Gemini), price: 3_995_000_000_000, quantity: 11_063 }]
    );
    assert_eq!(
        book.asks,
        vec![Order { source: Some(Exchange::Gemini), price: 3_995_001_000_000, quantity: 10_070_212 }]
    );
}

#[test]
fn kraken_single_pair_whatever_its_key() {
    let raw = KrakenResult { result: vec![("XXBTZUSD".to_string(), kraken_pair())] };
    let book = raw.to_order_book().unwrap();
    assert_eq!(
        book.bids,
        vec![Order { source: Some(Exchange::Kraken), price: 3_997_120_000_000, quantity: 207_800_000 }]
    );
    let other = KrakenResult { result: vec![("XETHZUSD".to_string(), kraken_pair())] };
    assert_eq!(other.to_order_book().unwrap().asks, book.asks);
}

#[test]
fn kraken_needs_exactly_one_pair() {
    let none = KrakenResult { result: vec![] };
    assert_eq!(none.to_order_book().unwrap_err(), BookError::Shape);
    let two = KrakenResult {
        result: vec![("XXBTZUSD".to_string(), kraken_pair()), ("XETHZUSD".to_string(), kraken_pair())],
    };
    assert_eq!(two.to_order_book().unwrap_err(), BookError::Shape);
}

#[test]
fn malformed_field_aborts_the_snapshot() {
    let raw = CoinbaseOrder {
        bids: vec![tuple("100", "1", 1), tuple("10O", "1", 2), tuple("0", "1", 3)],
        asks: vec![],
    };
    assert_eq!(raw.to_order_book().unwrap_err(), BookError::Parse);
    let bad_amount = GeminiOrder {
        bids: vec![],
        asks: vec![GeminiBid { price: "1".into(), amount: "one".into() }],
    };
    assert_eq!(bad_amount.to_order_book().unwrap_err(), BookError::Parse);
}

#[test]
fn zero_quantity_or_price_rejected() {
    let zero_qty = CoinbaseOrder { bids: vec![tuple("100", "0.000", 1)], asks: vec![] };
    assert_eq!(zero_qty.to_order_book().unwrap_err(), BookError::NotPositive);
    let zero_price = KrakenResult {
        result: vec![(
            "XXBTZUSD".to_string(),
            KrakenPair { bids: vec![], asks: vec![tuple("0", "1", 1)] },
        )],
    };
    assert_eq!(zero_price.to_order_book().unwrap_err(), BookError::NotPositive);
}

#[test]
fn decoded_orders_are_positive() {
    let raw = GeminiOrder {
        bids: vec![
            GeminiBid { price: "0.00000001".into(), amount: "0.00000001".into() },
            GeminiBid { price: "5".into(), amount: "2.5".into() },
        ],
        asks: vec![GeminiBid { price: "6".into(), amount: "1".into() }],
    };
    let book = raw.to_order_book().unwrap();
    for o in book.bids.iter().chain(book.asks.iter()) {
        assert!(o.price > 0 && o.quantity > 0);
    }
}

#[test]
fn snapshot_dispatches_by_exchange() {
    let snap = Snapshot::Kraken(KrakenResult { result: vec![("XXBTZUSD".to_string(), kraken_pair())] });
    assert_eq!(snap.exchange(), Exchange::Kraken);
    assert_eq!(snap.decode().unwrap().bids[0].source, Some(Exchange::Kraken));
    let cb = Snapshot::Coinbase(CoinbaseOrder { bids: vec![], asks: vec![tuple("1", "1", 1)] });
    assert_eq!(cb.exchange(), Exchange::Coinbase);
    assert_eq!(cb.decode().unwrap().asks[0].source, Some(Exchange::Coinbase));
    let gm = Snapshot::Gemini(GeminiOrder { bids: vec![], asks: vec![] });
    assert_eq!(gm.exchange(), Exchange::Gemini);
    assert!(gm.decode().unwrap().asks.is_empty());
}
